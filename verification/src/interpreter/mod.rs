//! The tree-walk interpreter.
pub mod lox_class;
pub mod lox_function;
pub mod lox_instance;

use vstd::prelude::*;
use std::collections::HashMap;
use std::rc::Rc;
use crate::environment::{
    ancestor_of, depth, env_views, envs_wf, law_lookup_after_assign, EnvironmentView,
    bind_in, law_read_after_set_local, lemma_ancestor_in_arena, lookup, read_value, set_local, undefined_message, Environment,
    EnvironmentRef,
};
use crate::expr::Expr;
use crate::expr_id::ExprId;
use crate::interpreter::lox_class::{
    classes_wf, class_getter, class_method, constructor_arity, find_inherited_getter, find_inherited_method,
    metaclass_name,
    ClassObject, LoxClass,
};
use crate::interpreter::lox_function::LoxFunction;
use crate::interpreter::lox_instance::{undefined_property, undefined_property_message, LoxInstance};
use crate::numbers::{is_zero, is_zero_number, NumberOps};
use crate::stmt::{ClassMember, Stmt};
use crate::text::{append_str, concat, decimal, owned, string_is, usize_to_string};
use crate::token::{nil, Callable, FunctionRef, InstanceRef, Literal, Token, TokenType, Value};

verus! {

broadcast use vstd::std_specs::hash::group_hash_axioms;

/// An error raised while running a program: where, and what went wrong.
#[derive(Debug)]
pub struct RuntimeError {
    pub token: Token,
    pub message: String,
}

impl RuntimeError {
    pub fn new(token: Token, message: String) -> (e: RuntimeError)
        ensures
            e.token == token,
            e.message == message,
    {
        RuntimeError { token, message }
    }
}

/// How running a statement ended.
#[derive(Debug)]
pub enum ExecutionResult {
    Success,
    RuntimeError(RuntimeError),
    /// A `break` left the innermost loop body.
    Break,
    /// A `return` left a function body with this value.
    Return(Value),
}

/// Where the resolver placed a local variable: how many scopes out, and
/// which slot there.
#[derive(Debug, Clone, Copy)]
pub struct LocalResolution {
    pub distance: usize,
    pub slot: usize,
}

/// Something that can be called: how many arguments it takes and what it is called.
pub trait LoxCallable {
    fn arity(&self) -> usize;

    fn name(&self) -> String;
}

impl LoxCallable for LoxFunction {
    fn arity(&self) -> (n: usize)
        ensures
            n == self.arity_spec(),
    {
        LoxFunction::arity(self)
    }

    fn name(&self) -> (s: String)
        ensures
            match self.name_token() {
                Some(t) => s@ == t.lexeme@,
                None => s@ == "anonymous"@,
            },
    {
        LoxFunction::name(self)
    }
}

/// The native `clock()` function.
pub struct NativeClock;

impl LoxCallable for NativeClock {
    fn arity(&self) -> (n: usize)
        ensures
            n == 0,
    {
        0
    }

    fn name(&self) -> (s: String)
        ensures
            s@ == "clock"@,
    {
        owned("clock")
    }
}

/// Only `nil` and `false` are falsy.
pub open spec fn truthy(v: Value) -> bool {
    match v {
        Value::Literal(Literal::Nil) => false,
        Value::Literal(Literal::Boolean(b)) => b,
        _ => true,
    }
}

pub open spec fn is_number(v: Value) -> bool {
    v matches Value::Literal(Literal::Number(_))
}

pub open spec fn is_string(v: Value) -> bool {
    v matches Value::Literal(Literal::String(_))
}

/// Lox `==`, for every pair of values but two numbers (which the host's
/// floating-point `equal` decides).
pub open spec fn equality(l: Value, r: Value) -> Option<bool> {
    match (l, r) {
        (Value::Literal(Literal::Nil), Value::Literal(Literal::Nil)) => Some(true),
        (Value::Literal(Literal::Nil), _) => Some(false),
        (_, Value::Literal(Literal::Nil)) => Some(false),
        (Value::Literal(Literal::Number(_)), Value::Literal(Literal::Number(_))) => None,
        (Value::Literal(Literal::String(a)), Value::Literal(Literal::String(b))) => Some(a@ == b@),
        (Value::Literal(Literal::Boolean(a)), Value::Literal(Literal::Boolean(b))) => Some(a == b),
        _ => Some(false),
    }
}

/// The operators a binary expression may have.
pub open spec fn is_binary_operator(t: TokenType) -> bool {
    t == TokenType::Minus || t == TokenType::Slash || t == TokenType::Star || t == TokenType::Plus
        || t == TokenType::Greater || t == TokenType::GreaterEqual || t == TokenType::Less || t
        == TokenType::LessEqual || t == TokenType::EqualEqual || t == TokenType::BangEqual
}

pub open spec fn is_boolean(v: Value) -> bool {
    v matches Value::Literal(Literal::Boolean(_))
}

/// What a successful binary operation gives: a number for arithmetic, a
/// boolean for comparisons and equality, a number or a string for `+`.
pub open spec fn binary_result_kind(op: TokenType, v: Value) -> bool {
    if op == TokenType::Minus || op == TokenType::Star || op == TokenType::Slash {
        is_number(v)
    } else if op == TokenType::Plus {
        is_number(v) || is_string(v)
    } else {
        is_boolean(v)
    }
}

/// What a successful evaluation of `e` gives, as far as its outermost
/// operator decides it.
pub open spec fn result_kind(e: Expr, v: Value) -> bool {
    match e {
        Expr::Literal { value } => v == Value::Literal(value),
        Expr::Unary { operator, .. } => (operator.token_type == TokenType::Minus ==> is_number(v))
            && (operator.token_type == TokenType::Bang ==> is_boolean(v)),
        Expr::Binary { operator, .. } => binary_result_kind(operator.token_type, v),
        Expr::Function { .. } => v matches Value::Callable(Callable::Function(_)),
        _ => true,
    }
}

/// What reading a variable depends on.
pub struct Context {
    pub scopes: Seq<crate::environment::EnvironmentView>,
    pub resolutions: Map<ExprId, LocalResolution>,
    pub current: nat,
}

/// What the variable named `name` at expression `id` reads as in `c`: the
/// local slot the resolver placed it in, or else its global binding; `None`
/// where there is no such slot or binding.
pub open spec fn value_in(c: Context, id: ExprId, name: Seq<char>) -> Option<Value> {
    let envs = c.scopes;
    if c.resolutions.contains_key(id) {
        let place = c.resolutions[id];
        let a = ancestor_of(envs, c.current, place.distance as nat);
        if place.distance <= depth(envs, c.current) && place.slot < envs[a as int].local_values.len() {
            Some(read_value(envs[a as int].local_values[place.slot as int]))
        } else {
            None
        }
    } else {
        match lookup(envs, 0, name) {
            Some((_, v)) => Some(read_value(v)),
            None => None,
        }
    }
}

/// How many evaluation steps `e` takes at most, where `pure_value` decides it.
pub open spec fn expr_size(e: Expr) -> nat
    decreases e,
{
    match e {
        Expr::Grouping { expression } => 1 + expr_size(*expression),
        Expr::Unary { right, .. } => 1 + expr_size(*right),
        Expr::Binary { left, right, .. } => 1 + expr_size(*left) + expr_size(*right),
        Expr::Logical { left, right, .. } => 1 + expr_size(*left) + expr_size(*right),
        Expr::Get { object, .. } => 1 + expr_size(*object),
        Expr::SetProperty { object, .. } => 1 + expr_size(*object),
        Expr::Call { callee, arguments, .. } => 3 + expr_size(*callee) + args_size(arguments@),
        _ => 1,
    }
}

/// How many evaluation steps a list of call arguments takes at most, where
/// `pure_args` decides it.
pub open spec fn args_size(args: Seq<Expr>) -> nat
    decreases args,
{
    if args.len() == 0 {
        0
    } else {
        args_size(args.drop_last()) + expr_size(args.last())
    }
}

/// The values of call arguments, evaluated from left to right in `c`, where
/// the library alone decides them: all the values, or the first error; `None`
/// where an argument before the first error is not decided by the library.
pub open spec fn pure_args(c: Context, args: Seq<Expr>) -> Option<Result<Seq<Value>, Seq<char>>>
    decreases args,
{
    if args.len() == 0 {
        Some(Ok(Seq::empty()))
    } else {
        match pure_args(c, args.drop_last()) {
            Some(Ok(values)) => match pure_value(c, args.last()) {
                Some(Ok(v)) => Some(Ok(values.push(v))),
                Some(Err(m)) => Some(Err(m)),
                None => None,
            },
            other => other,
        }
    }
}

/// What binary operator `op` gives for the numbers `a` and `b`, by the host's
/// operations: `None` for a division by zero (positive or negative); else a
/// number or a boolean.
pub open spec fn number_outcome<N: NumberOps>(numbers: &N, op: TokenType, a: u64, b: u64) -> Option<Value> {
    if op == TokenType::Minus {
        Some(Value::Literal(Literal::Number(numbers.subtract_spec(a, b))))
    } else if op == TokenType::Plus {
        Some(Value::Literal(Literal::Number(numbers.add_spec(a, b))))
    } else if op == TokenType::Star {
        Some(Value::Literal(Literal::Number(numbers.multiply_spec(a, b))))
    } else if op == TokenType::Slash {
        if is_zero(b) {
            None
        } else {
            Some(Value::Literal(Literal::Number(numbers.divide_spec(a, b))))
        }
    } else if op == TokenType::Greater {
        Some(Value::Literal(Literal::Boolean(numbers.greater_spec(a, b))))
    } else if op == TokenType::GreaterEqual {
        Some(Value::Literal(Literal::Boolean(numbers.greater_equal_spec(a, b))))
    } else if op == TokenType::Less {
        Some(Value::Literal(Literal::Boolean(numbers.less_spec(a, b))))
    } else if op == TokenType::LessEqual {
        Some(Value::Literal(Literal::Boolean(numbers.less_equal_spec(a, b))))
    } else if op == TokenType::EqualEqual {
        Some(Value::Literal(Literal::Boolean(numbers.equal_spec(a, b))))
    } else {
        Some(Value::Literal(Literal::Boolean(!numbers.equal_spec(a, b))))
    }
}

/// What a binary operator gives for two values, where the library alone
/// decides it (not the host's arithmetic, nor a new string): an error for
/// operands of the wrong kind, or the outcome of `==` and `!=`.
pub open spec fn binary_outcome(op: TokenType, l: Value, r: Value) -> Option<Result<Value, Seq<char>>> {
    if !is_binary_operator(op) {
        Some(Err("Invalid binary operator."@))
    } else if op == TokenType::EqualEqual {
        match equality(l, r) {
            Some(b) => Some(Ok(Value::Literal(Literal::Boolean(b)))),
            None => None,
        }
    } else if op == TokenType::BangEqual {
        match equality(l, r) {
            Some(b) => Some(Ok(Value::Literal(Literal::Boolean(!b)))),
            None => None,
        }
    } else if op == TokenType::Slash && is_number(r) {
        None
    } else {
        match operand_error(op, l, r) {
            Some(m) => Some(Err(m)),
            None => None,
        }
    }
}

/// The text that shows `v` in `it`: a number as the host formats it, a
/// string as itself, `true`, `false`, `nil`, `<fn NAME>` for a function,
/// the class name for a class, and `NAME instance` for an instance.
pub open spec fn display<N: NumberOps>(numbers: &N, it: Interpreter, v: Value) -> Seq<char> {
    match v {
        Value::Literal(Literal::Number(n)) => numbers.format_spec(n)@,
        Value::Literal(Literal::String(t)) => t@,
        Value::Literal(Literal::Boolean(b)) => if b {
            "true"@
        } else {
            "false"@
        },
        Value::Literal(Literal::Nil) => "nil"@,
        Value::Callable(Callable::Clock) => "<fn clock>"@,
        Value::Callable(Callable::Function(f)) => "<fn "@ + (if f < it.function_count() {
            it.function_name(f as nat)
        } else {
            Seq::empty()
        }) + ">"@,
        Value::Class(c) => if c < it.class_object_count() && it.instance_class_of(c as nat) < it.class_count() {
            it.class_name(it.instance_class_of(c as nat) as nat)
        } else {
            Seq::empty()
        },
        Value::Instance(i) => (if i < it.instance_count() && it.class_of_instance(i as nat) < it.class_count() {
            it.class_name(it.class_of_instance(i as nat) as nat)
        } else {
            Seq::empty()
        }) + " instance"@,
    }
}

/// `after` is `mid` with one more line printed, `line`.
pub open spec fn line_printed(mid: Interpreter, line: Seq<char>, after: Interpreter) -> bool {
    &&& after.printed() == mid.printed().push(line)
    &&& after.context() == mid.context()
    &&& after.same_instances(mid)
    &&& after.same_callables(mid)
    &&& after.steps_left() == mid.steps_left()
}

/// `after` is `st` with `name` declared as `v`: bound by name in the global
/// scope, or else in the next local slot of the current scope.
pub open spec fn declared(st: Interpreter, name: Seq<char>, v: Option<Value>, after: Interpreter) -> bool {
    &&& after.current() == st.current()
    &&& after.printed() == st.printed()
    &&& if st.current() == 0 {
        after.scopes()[0].values == st.scopes()[0].values.insert(name, v)
    } else {
        after.scopes() == st.scopes().update(
            st.current() as int,
            EnvironmentView {
                local_values: st.scopes()[st.current() as int].local_values.push(v),
                ..st.scopes()[st.current() as int]
            },
        )
    }
}

/// Evaluating the arguments `args` one after another from `start` went
/// through the states in `trace`, each argument giving what `results` says:
/// all but the last given were values, and the run stopped early only at an
/// error.
pub open spec fn args_evaluated<N: NumberOps>(
    numbers: &N,
    start: Interpreter,
    args: Seq<Expr>,
    trace: Seq<Interpreter>,
    results: Seq<Result<Value, RuntimeError>>,
) -> bool
    decreases start.steps_left(), args, 7int,
{
    &&& trace.len() == results.len() + 1
    &&& results.len() <= args.len()
    &&& trace[0] == start
    &&& forall|k: int|
        0 <= k < results.len() ==> trace[k].steps_left() <= start.steps_left() && evaluated(
            numbers,
            trace[k],
            args[k],
            trace[k + 1],
            #[trigger] results[k],
        )
    &&& forall|k: int| 0 <= k < results.len() - 1 ==> #[trigger] results[k] is Ok
    &&& results.len() < args.len() ==> args_failed(results)
}

/// How a call whose callee gave `cv` in `mid` ends: with no step left it
/// fails with the step limit; otherwise a step is spent, the arguments are
/// evaluated (`args_evaluated`), an error among them ends the call with it,
/// and otherwise the callee is called with their values (`call_gives`).
pub open spec fn call_after_callee<N: NumberOps>(
    numbers: &N,
    mid: Interpreter,
    cv: Value,
    arguments: Seq<Expr>,
    paren: Token,
    after: Interpreter,
    r: Result<Value, RuntimeError>,
) -> bool
    decreases mid.steps_left(), arguments, 8int,
{
    if mid.steps_left() == 0 {
        (r matches Err(err) && err.message@ == "Execution step limit reached."@) && after == mid
    } else {
        exists|trace: Seq<Interpreter>, results: Seq<Result<Value, RuntimeError>>|
            #![trigger args_outcome(trace, results, after, r)]
            {
                &&& args_evaluated(numbers, mid.spent(), arguments, trace, results)
                &&& trace.len() > 0
                &&& trace.last().steps_left() < mid.steps_left()
                &&& args_outcome(trace, results, after, r)
                &&& !args_failed(results) ==> call_gives(numbers, trace.last(), cv, ok_values(results), paren, after, r)
            }
    }
}

/// The value in slot `slot` of the scope `distance` scopes out from the
/// current one, where there is such a slot.
pub open spec fn slot_read(c: Context, distance: nat, slot: nat) -> Option<Value> {
    let a = ancestor_of(c.scopes, c.current, distance);
    if distance <= depth(c.scopes, c.current) && slot < c.scopes[a as int].local_values.len() {
        Some(read_value(c.scopes[a as int].local_values[slot as int]))
    } else {
        None
    }
}

/// `super.method`, resolved to `place` in `s` (the superclass in that slot,
/// `this` in slot 0 of the scope just inside it): the superclass's method,
/// found in it or its own superclasses, bound to the instance
/// (`method_bound`); a method found nowhere fails as an undefined property; a
/// superclass value that is no class fails with "Superclass must be a
/// class.", and a `this` that is no instance with "Super expression requires
/// a bound instance.", both at `keyword`.
pub open spec fn super_outcome(
    s: Interpreter,
    place: LocalResolution,
    keyword: Token,
    method: Token,
    after: Interpreter,
    r: Result<Value, RuntimeError>,
) -> bool {
    match (slot_read(s.context(), place.distance as nat, place.slot as nat), slot_read(
        s.context(),
        (place.distance - 1) as nat,
        0,
    )) {
        (Some(Value::Class(c)), Some(Value::Instance(i))) => c < s.class_object_count() ==> match s.method_of(
            s.instance_class_of(c as nat) as nat,
            method.lexeme@,
        ) {
            Some(m) => m < s.function_count() ==> {
                &&& r == Ok::<Value, RuntimeError>(Value::Callable(Callable::Function(s.function_count() as usize)))
                &&& method_bound(s, i as nat, m as nat, after, s.function_count())
            },
            None => error_at_token(r, method, undefined_property_message(method.lexeme@)),
        },
        (Some(Value::Class(_)), Some(_)) => error_at_token(r, keyword, "Super expression requires a bound instance."@),
        (Some(_), Some(_)) => error_at_token(r, keyword, "Superclass must be a class."@),
        _ => r is Err,
    }
}

/// Reading property `name` of the value `ov` that the object gave in `mid`:
/// a class object gives its static method of that name; an instance spends a
/// step (failing with the step limit where none is left), then gives its
/// field of that name, else calls its class's getter (`getter_called`), else
/// binds its class's method (`method_bound`); a name found nowhere, on an
/// instance or a class, fails as an undefined property; any other value
/// fails with "Only instances have properties." at `name`.
pub open spec fn get_after_object<N: NumberOps>(
    numbers: &N,
    mid: Interpreter,
    ov: Value,
    name: Token,
    after: Interpreter,
    r: Result<Value, RuntimeError>,
) -> bool
    decreases mid.steps_left(), Seq::<Value>::empty(), 11int,
{
    match ov {
        Value::Instance(i) => {
            &&& mid.steps_left() == 0 ==> (r matches Err(e) && e.message@ == "Execution step limit reached."@)
            &&& mid.steps_left() > 0 && i < mid.instance_count() ==> if mid.fields_of_instance(i as nat).contains_key(
                name.lexeme@,
            ) {
                r == Ok::<Value, RuntimeError>(mid.fields_of_instance(i as nat)[name.lexeme@])
            } else {
                match mid.getter_of(mid.class_of_instance(i as nat) as nat, name.lexeme@) {
                    Some(g) => g < mid.function_count() ==> getter_called(numbers, mid, i as nat, g as nat, after, r),
                    None => match mid.method_of(mid.class_of_instance(i as nat) as nat, name.lexeme@) {
                        Some(m) => m < mid.function_count() ==> {
                            &&& r == Ok::<Value, RuntimeError>(
                                Value::Callable(Callable::Function(mid.function_count() as usize)),
                            )
                            &&& method_bound(mid, i as nat, m as nat, after, mid.function_count())
                        },
                        None => r matches Err(e) && e.message@ == undefined_property_message(name.lexeme@),
                    },
                }
            }
        },
        Value::Class(c) => c < mid.class_object_count() ==> match mid.static_method_of(c as nat, name.lexeme@) {
            Some(m) => r == Ok::<Value, RuntimeError>(Value::Callable(Callable::Function(m))) && after == mid,
            None => r matches Err(e) && e.message@ == undefined_property_message(name.lexeme@),
        },
        _ => error_at_token(r, name, "Only instances have properties."@) && after == mid,
    }
}

/// After the value of `object.name = value` gave `c` in `mid2`: an error
/// ends the assignment with it; a value is stored in field `name` of
/// instance `i` (the scopes and printed lines staying as they were) and is
/// the result.
pub open spec fn field_stored(
    mid2: Interpreter,
    c: Result<Value, RuntimeError>,
    i: nat,
    name: Seq<char>,
    after: Interpreter,
    r: Result<Value, RuntimeError>,
) -> bool {
    match c {
        Err(e) => r == Err::<Value, RuntimeError>(e) && after == mid2,
        Ok(v) => i < mid2.instance_count() ==> {
            &&& r == Ok::<Value, RuntimeError>(v)
            &&& after.instance_count() == mid2.instance_count()
            &&& after.fields_of_instance(i) == mid2.fields_of_instance(i).insert(name, v)
            &&& after.scopes() == mid2.scopes()
            &&& after.printed() == mid2.printed()
        },
    }
}

/// After the object of `object.name = value` gave `ov` in `mid`: an object
/// that is no instance fails with "Only instances have fields." at `name`;
/// for an instance, `value` is evaluated next and what it gives is stored
/// (`field_stored`).
pub open spec fn set_after_object<N: NumberOps>(
    numbers: &N,
    mid: Interpreter,
    ov: Value,
    name: Token,
    value: Expr,
    after: Interpreter,
    r: Result<Value, RuntimeError>,
) -> bool
    decreases mid.steps_left(), value, 9int,
{
    match ov {
        Value::Instance(i) => exists|mid2: Interpreter, c: Result<Value, RuntimeError>|
            #![trigger field_stored(mid2, c, i as nat, name.lexeme@, after, r)]
            {
                &&& evaluated(numbers, mid, value, mid2, c)
                &&& field_stored(mid2, c, i as nat, name.lexeme@, after, r)
            },
        _ => error_at_token(r, name, "Only instances have fields."@) && after == mid,
    }
}

/// As `args_evaluated`, ending in `end`, which has no more steps left than
/// `start`.
pub open spec fn args_evaluated_to<N: NumberOps>(
    numbers: &N,
    start: Interpreter,
    args: Seq<Expr>,
    trace: Seq<Interpreter>,
    results: Seq<Result<Value, RuntimeError>>,
    end: Interpreter,
) -> bool {
    &&& args_evaluated(numbers, start, args, trace, results)
    &&& trace.len() > 0
    &&& trace.last() == end
    &&& end.steps_left() <= start.steps_left()
}

/// The last argument evaluated gave an error.
pub open spec fn args_failed(results: Seq<Result<Value, RuntimeError>>) -> bool {
    results.len() > 0 && results.last() is Err
}

/// The values the arguments gave.
pub open spec fn ok_values(results: Seq<Result<Value, RuntimeError>>) -> Seq<Value> {
    results.map_values(
        |x: Result<Value, RuntimeError>|
            match x {
                Ok(v) => v,
                Err(_) => Value::Literal(Literal::Nil),
            },
    )
}

/// Where evaluating the arguments of a call stopped at an error, the call
/// ends there with it.
pub open spec fn args_outcome(
    trace: Seq<Interpreter>,
    results: Seq<Result<Value, RuntimeError>>,
    after: Interpreter,
    r: Result<Value, RuntimeError>,
) -> bool {
    args_failed(results) ==> r == results.last() && after == trace.last()
}

/// Where the operand of an expression gave an error `c` in `mid`, the
/// expression ends there with that error; otherwise it ends in `mid`.
pub open spec fn operand_end(
    mid: Interpreter,
    c: Result<Value, RuntimeError>,
    after: Interpreter,
    r: Result<Value, RuntimeError>,
) -> bool {
    &&& after == mid
    &&& c matches Err(e) ==> r == Err::<Value, RuntimeError>(e)
}

/// Where the left operand of a binary expression gave an error `l` in
/// `mid`, the expression ends there with that error.
pub open spec fn left_end(
    mid: Interpreter,
    l: Result<Value, RuntimeError>,
    after: Interpreter,
    r: Result<Value, RuntimeError>,
) -> bool {
    l matches Err(e) ==> r == Err::<Value, RuntimeError>(e) && after == mid
}

/// How a binary expression whose left operand gave `lv` ends once its right
/// operand gave `rr` in `mid`: with that error, or as `binary_gives` says.
pub open spec fn binary_end<N: NumberOps>(
    numbers: &N,
    operator: Token,
    lv: Value,
    mid: Interpreter,
    rr: Result<Value, RuntimeError>,
    after: Interpreter,
    r: Result<Value, RuntimeError>,
) -> bool {
    &&& after == mid
    &&& match rr {
        Err(e) => r == Err::<Value, RuntimeError>(e),
        Ok(rv) => binary_gives(numbers, mid, operator, lv, rv, r),
    }
}

/// What the unary `operator` gives for `v`: `-` negates a number as the host
/// does and fails at the operator on anything else; `!` gives the opposite of
/// the value's truth; any other operator fails.
pub open spec fn unary_gives<N: NumberOps>(numbers: &N, operator: Token, v: Value, r: Result<Value, RuntimeError>) -> bool {
    if operator.token_type == TokenType::Minus {
        match v {
            Value::Literal(Literal::Number(n)) => r == Ok::<Value, RuntimeError>(
                Value::Literal(Literal::Number(numbers.negate_spec(n))),
            ),
            _ => error_at_token(r, operator, "Operand must be a number."@),
        }
    } else if operator.token_type == TokenType::Bang {
        r == Ok::<Value, RuntimeError>(Value::Literal(Literal::Boolean(!truthy(v))))
    } else {
        error_at_token(r, operator, "Invalid unary operator."@)
    }
}

/// `r` is the error with message `m` at `token`.
pub open spec fn error_at_token(r: Result<Value, RuntimeError>, token: Token, m: Seq<char>) -> bool {
    r matches Err(e) && e.token == token && e.message@ == m
}

/// What the binary `operator` gives for `l` and `rv` in `it`: an unknown
/// operator fails; a zero divisor fails with "Division by zero."; two numbers
/// give the host's result (`number_outcome`); `==` and `!=` compare; `+`
/// with a string operand joins the texts of both operands (`display`); any
/// other operands of the wrong kind fail with `operand_error`'s message. Every
/// error is at the operator.
pub open spec fn binary_gives<N: NumberOps>(
    numbers: &N,
    it: Interpreter,
    operator: Token,
    l: Value,
    rv: Value,
    r: Result<Value, RuntimeError>,
) -> bool {
    let op = operator.token_type;
    if !is_binary_operator(op) {
        error_at_token(r, operator, "Invalid binary operator."@)
    } else if op == TokenType::Slash && (rv matches Value::Literal(Literal::Number(b)) && is_zero(b)) {
        error_at_token(r, operator, "Division by zero."@)
    } else if let (Value::Literal(Literal::Number(a)), Value::Literal(Literal::Number(b))) = (l, rv) {
        match number_outcome(numbers, op, a, b) {
            Some(v) => r == Ok::<Value, RuntimeError>(v),
            None => error_at_token(r, operator, "Division by zero."@),
        }
    } else if op == TokenType::EqualEqual || op == TokenType::BangEqual {
        match equality(l, rv) {
            Some(e) => r == Ok::<Value, RuntimeError>(
                Value::Literal(Literal::Boolean(if op == TokenType::EqualEqual { e } else { !e })),
            ),
            None => false,
        }
    } else if op == TokenType::Plus && (is_string(l) || is_string(rv)) {
        r matches Ok(Value::Literal(Literal::String(s))) && s@ == display(numbers, it, l) + display(numbers, it, rv)
    } else {
        match operand_error(op, l, rv) {
            Some(m) => error_at_token(r, operator, m),
            None => false,
        }
    }
}

/// The outcome of evaluating `e` in context `c`, for the expressions whose
/// outcome the library alone decides: literals, variables and `this`,
/// groupings, `!`, `and` and `or`, `==` and `!=` on values other than two
/// numbers, operands, objects or callees of the wrong kind, and `clock`
/// called with arguments. `None` for the rest (what the host's arithmetic
/// gives, new strings, calls, assignments and properties).
pub open spec fn pure_value(c: Context, e: Expr) -> Option<Result<Value, Seq<char>>>
    decreases e,
{
    match e {
        Expr::Literal { value } => Some(Ok(Value::Literal(value))),
        Expr::Grouping { expression } => pure_value(c, *expression),
        Expr::Variable { id, name } => match value_in(c, id, name.lexeme@) {
            Some(v) => Some(Ok(v)),
            None => if !c.resolutions.contains_key(id) { Some(Err(undefined_message(name.lexeme@))) } else { None },
        },
        Expr::This { id, keyword } => match value_in(c, id, keyword.lexeme@) {
            Some(v) => Some(Ok(v)),
            None => None,
        },
        Expr::Unary { operator, right } => match pure_value(c, *right) {
            Some(Ok(v)) => if operator.token_type == TokenType::Bang {
                Some(Ok(Value::Literal(Literal::Boolean(!truthy(v)))))
            } else if operator.token_type == TokenType::Minus {
                if is_number(v) { None } else { Some(Err("Operand must be a number."@)) }
            } else {
                Some(Err("Invalid unary operator."@))
            },
            other => other,
        },
        Expr::Logical { left, operator, right } => match pure_value(c, *left) {
            Some(Ok(l)) => if (operator.token_type == TokenType::Or) == truthy(l) {
                Some(Ok(l))
            } else {
                pure_value(c, *right)
            },
            other => other,
        },
        Expr::Binary { left, operator, right } => match pure_value(c, *left) {
            Some(Ok(l)) => match pure_value(c, *right) {
                Some(Ok(r)) => binary_outcome(operator.token_type, l, r),
                other => other,
            },
            other => other,
        },
        Expr::Get { object, .. } => match pure_value(c, *object) {
            Some(Ok(v)) => if v is Class || v is Instance {
                None
            } else {
                Some(Err("Only instances have properties."@))
            },
            other => other,
        },
        Expr::SetProperty { object, .. } => match pure_value(c, *object) {
            Some(Ok(v)) => if v is Instance { None } else { Some(Err("Only instances have fields."@)) },
            other => other,
        },
        Expr::Call { callee, arguments, .. } => match pure_value(c, *callee) {
            Some(Ok(f)) => match pure_args(c, arguments@) {
                Some(Ok(values)) => if f == Value::Callable(Callable::Clock) && values.len() != 0 {
                    Some(Err(arity_message(0, values.len())))
                } else if f is Callable || f is Class {
                    None
                } else {
                    Some(Err("Can only call functions and classes."@))
                },
                Some(Err(m)) => Some(Err(m)),
                None => None,
            },
            other => other,
        },
        _ => None,
    }
}

/// `r` is the outcome `outcome`: the value, or an error with its message.
pub open spec fn has_outcome(r: Result<Value, RuntimeError>, outcome: Result<Value, Seq<char>>) -> bool {
    match outcome {
        Ok(v) => r == Ok::<Value, RuntimeError>(v),
        Err(m) => r matches Err(e) && e.message@ == m,
    }
}

/// Taking one more argument extends what the arguments before it give by
/// what it gives, and adds its size.
pub proof fn lemma_pure_args_step(c: Context, args: Seq<Expr>, i: int)
    requires
        0 <= i < args.len(),
    ensures
        pure_args(c, args.take(i + 1)) == match pure_args(c, args.take(i)) {
            Some(Ok(values)) => match pure_value(c, args[i]) {
                Some(Ok(v)) => Some(Ok(values.push(v))),
                Some(Err(m)) => Some(Err(m)),
                None => None,
            },
            other => other,
        },
        args_size(args.take(i + 1)) == args_size(args.take(i)) + expr_size(args[i]),
{
    assert(args.take(i + 1).drop_last() =~= args.take(i));
    assert(args.take(i + 1).last() == args[i]);
}

/// Where the first `j` arguments already fail, or are not decided by the
/// library, so are all of them; and the first `j` take no more steps than all.
pub proof fn lemma_pure_args_prefix(c: Context, args: Seq<Expr>, j: int)
    requires
        0 <= j <= args.len(),
    ensures
        pure_args(c, args.take(j)) is None ==> pure_args(c, args) is None,
        pure_args(c, args.take(j)) matches Some(Err(m)) ==> pure_args(c, args) == pure_args(c, args.take(j)),
        args_size(args.take(j)) <= args_size(args),
    decreases args.len() - j,
{
    if j == args.len() {
        assert(args.take(j) =~= args);
    } else {
        lemma_pure_args_step(c, args, j);
        lemma_pure_args_prefix(c, args, j + 1);
    }
}

/// Running the first statements of `statements` in order from `before` went
/// through the states in `trace` (the one before each statement that ran,
/// then `after`), each statement ending as `results` says, and every one but
/// the last that ran succeeded.
pub open spec fn ran_prefix<N: NumberOps>(
    numbers: &N,
    before: Interpreter,
    statements: Seq<Stmt>,
    trace: Seq<Interpreter>,
    results: Seq<ExecutionResult>,
    after: Interpreter,
) -> bool {
    &&& trace.len() == results.len() + 1
    &&& results.len() <= statements.len()
    &&& trace[0] == before
    &&& trace.last() == after
    &&& forall|k: int|
        0 <= k < results.len() ==> (trace[k].steps_left() > 0 ==> execution_outcome(
            numbers,
            trace[k],
            statements[k],
            trace[k + 1],
            #[trigger] results[k],
        ))
    &&& forall|k: int| 0 <= k < results.len() - 1 ==> #[trigger] results[k] is Success
}

/// Running `statements` in order from `before` gave `after` and `r`, through
/// the states in `trace`: the run stopped early only at a statement that did
/// not succeed, and `r` is how the last one that ran ended (`Success` where
/// none ran).
pub open spec fn runs_in_order<N: NumberOps>(
    numbers: &N,
    before: Interpreter,
    statements: Seq<Stmt>,
    trace: Seq<Interpreter>,
    results: Seq<ExecutionResult>,
    after: Interpreter,
    r: ExecutionResult,
) -> bool {
    &&& ran_prefix(numbers, before, statements, trace, results, after)
    &&& r == (if results.len() == 0 { ExecutionResult::Success } else { results.last() })
    &&& results.len() < statements.len() ==> results.len() > 0 && !(r is Success)
}

/// The scope a call opens inside `closure`, holding the first `k` arguments.
pub open spec fn call_frame(arguments: Seq<Value>, k: int, closure: nat) -> EnvironmentView {
    EnvironmentView {
        values: Map::empty(),
        local_values: arguments.take(k).map_values(|v: Value| Some(v)),
        enclosing: Some(closure),
    }
}

/// `entered` is `before` with one step spent and a new scope pushed for a
/// call of function `f`: inside the function's closure, with `arguments` in
/// its local slots; nothing else differs.
pub open spec fn call_entry(before: Interpreter, f: nat, arguments: Seq<Value>, entered: Interpreter) -> bool {
    &&& entered.scopes() == before.scopes().push(
        EnvironmentView {
            values: Map::empty(),
            local_values: arguments.map_values(|v: Value| Some(v)),
            enclosing: Some(before.function_closure(f)),
        },
    )
    &&& entered.current() == before.current()
    &&& entered.steps_left() + 1 == before.steps_left()
    &&& entered.resolutions() == before.resolutions()
    &&& entered.printed() == before.printed()
    &&& entered.same_instances(before)
    &&& entered.same_callables(before)
}

/// What a call gives once its body ended as `res` in `after`: the error of a
/// body that failed; else, for an initializer, the instance in the first
/// slot of its closure; else the returned value, or `nil`.
pub open spec fn call_outcome(after: Interpreter, closure: nat, initializer: bool, res: ExecutionResult) -> Result<
    Value,
    RuntimeError,
> {
    match res {
        ExecutionResult::RuntimeError(e) => Err(e),
        _ => if initializer && after.scopes()[closure as int].local_values.len() > 0 {
            Ok(read_value(after.scopes()[closure as int].local_values[0]))
        } else {
            Ok(
                match res {
                    ExecutionResult::Return(v) => v,
                    _ => Value::Literal(Literal::Nil),
                },
            )
        },
    }
}

/// Calling function `f` of `before` with `arguments` ended in `after` with
/// `r`: a scope holding the arguments was entered (`call_entry`), the
/// function's body ran in it as a block (`ran_block`), and `call_outcome`
/// gives the result of how the body ended.
pub open spec fn call_ran<N: NumberOps>(
    numbers: &N,
    before: Interpreter,
    f: nat,
    arguments: Seq<Value>,
    after: Interpreter,
    r: Result<Value, RuntimeError>,
) -> bool
    decreases before.steps_left(), arguments, 0int,
{
    exists|entered: Interpreter, trace: Seq<Interpreter>, results: Seq<ExecutionResult>, res: ExecutionResult|
        #![trigger call_entry(before, f, arguments, entered), run_shape(before.function_body(f).len(), trace, results, res)]
        {
            &&& call_entry(before, f, arguments, entered)
            &&& ran_block(numbers, entered, before.function_body(f), before.scopes().len(), trace, results, after, res)
            &&& r == call_outcome(after, before.function_closure(f), before.function_is_initializer(f), res)
        }
}

/// `bound` is `before` with a new instance of class `class` (with no fields)
/// and its method `m` bound to it: a scope holding the instance as `this`
/// inside `m`'s closure, and a function `g` with `m`'s body closing over it;
/// one step is spent and nothing else differs.
pub open spec fn init_bound(before: Interpreter, class: nat, m: nat, bound: Interpreter, g: nat) -> bool {
    &&& bound.instance_count() == before.instance_count() + 1
    &&& bound.class_of_instance(before.instance_count()) == class
    &&& bound.fields_of_instance(before.instance_count()) == Map::<Seq<char>, Value>::empty()
    &&& g < bound.function_count()
    &&& bound.function_body(g) == before.function_body(m)
    &&& bound.function_is_initializer(g) == before.function_is_initializer(m)
    &&& bound.function_closure(g) == before.scopes().len()
    &&& bound.scopes() == before.scopes().push(
        EnvironmentView {
            values: Map::empty(),
            local_values: seq![Some(Value::Instance(before.instance_count() as usize))],
            enclosing: Some(before.function_closure(m)),
        },
    )
    &&& bound.current() == before.current()
    &&& bound.steps_left() + 1 == before.steps_left()
    &&& bound.resolutions() == before.resolutions()
    &&& bound.printed() == before.printed()
}

/// What constructing an instance `instance` gives once its initializer
/// call gave `c`: the call's error, or the instance.
pub open spec fn init_result(c: Result<Value, RuntimeError>, instance: nat, r: Result<Value, RuntimeError>) -> bool {
    r == match c {
        Err(e) => Err::<Value, RuntimeError>(e),
        Ok(_) => Ok::<Value, RuntimeError>(Value::Instance(instance as usize)),
    }
}

/// Constructing an instance of class `class` of `before`, whose `init` is
/// method `m`, with `arguments` ended in `after` with `r`: the instance was
/// made and `m` bound to it (`init_bound`), the bound method was called with
/// the arguments (`call_ran`, or the step limit where no step was left), and
/// the call's error, or else the instance, is the result (`init_result`).
pub open spec fn initialized<N: NumberOps>(
    numbers: &N,
    before: Interpreter,
    class: nat,
    m: nat,
    arguments: Seq<Value>,
    after: Interpreter,
    r: Result<Value, RuntimeError>,
) -> bool
    decreases before.steps_left(), arguments, 1int,
{
    exists|bound: Interpreter, g: nat, c: Result<Value, RuntimeError>|
        #![trigger init_bound(before, class, m, bound, g), init_result(c, before.instance_count(), r)]
        {
            &&& init_bound(before, class, m, bound, g)
            &&& bound.steps_left() > 0 ==> call_ran(numbers, bound, g, arguments, after, c)
            &&& bound.steps_left() == 0 ==> (c matches Err(e) && e.message@ == "Execution step limit reached."@)
            &&& init_result(c, before.instance_count(), r)
        }
}

/// Constructing an instance of class `class` of `before` with `arguments`
/// ended in `after` with `r`: with no step left it fails with the step
/// limit; a class without `init` gives a new instance with no fields; one
/// with `init` is `initialized`.
pub open spec fn instantiated<N: NumberOps>(
    numbers: &N,
    before: Interpreter,
    class: nat,
    arguments: Seq<Value>,
    after: Interpreter,
    r: Result<Value, RuntimeError>,
) -> bool
    decreases before.steps_left(), arguments, 2int,
{
    if before.steps_left() == 0 {
        r matches Err(e) && e.message@ == "Execution step limit reached."@
    } else {
        match before.method_of(class, "init"@) {
            None => {
                &&& r == Ok::<Value, RuntimeError>(Value::Instance(before.instance_count() as usize))
                &&& after.instance_count() == before.instance_count() + 1
                &&& after.class_of_instance(before.instance_count()) == class
                &&& after.fields_of_instance(before.instance_count()) == Map::<Seq<char>, Value>::empty()
            },
            Some(m) => m < before.function_count() ==> initialized(numbers, before, class, m as nat, arguments, after, r),
        }
    }
}

/// Calling `callee` in `before` with `arguments` (the call's parenthesis at
/// `paren`) ended in `after` with `r`: with no step left it fails with the
/// step limit; otherwise a step is spent, and a function called with as many
/// arguments as it has parameters runs as `call_ran` says, `clock()` gives a
/// number, a class called with as many arguments as its constructor takes is
/// `instantiated`, a wrong number of arguments fails at the parenthesis, and
/// anything else fails there as not callable.
pub open spec fn call_gives<N: NumberOps>(
    numbers: &N,
    before: Interpreter,
    callee: Value,
    arguments: Seq<Value>,
    paren: Token,
    after: Interpreter,
    r: Result<Value, RuntimeError>,
) -> bool
    decreases before.steps_left(), arguments, 3int,
{
    if before.steps_left() == 0 {
        r matches Err(e) && e.message@ == "Execution step limit reached."@
    } else {
        let at = before.spent();
        match callee {
            Value::Callable(Callable::Function(f)) => if f >= before.function_count() {
                r is Err
            } else if arguments.len() != before.function_arity(f as nat) {
                error_at_token(r, paren, arity_message(before.function_arity(f as nat), arguments.len()))
            } else if at.steps_left() == 0 {
                r matches Err(e) && e.message@ == "Execution step limit reached."@
            } else {
                call_ran(numbers, at, f as nat, arguments, after, r)
            },
            Value::Callable(Callable::Clock) => if arguments.len() != 0 {
                error_at_token(r, paren, arity_message(0, arguments.len()))
            } else {
                r matches Ok(Value::Literal(Literal::Number(_)))
            },
            Value::Class(c) => if c >= before.class_object_count() {
                r is Err
            } else if arguments.len() != before.class_object_arity(c as nat) {
                error_at_token(r, paren, arity_message(before.class_object_arity(c as nat), arguments.len()))
            } else {
                instantiated(numbers, at, before.instance_class_of(c as nat) as nat, arguments, after, r)
            },
            _ => error_at_token(r, paren, "Can only call functions and classes."@),
        }
    }
}

/// `after` has one function more than `before`: it takes `arity` parameters,
/// runs `body`, and closes over the scope that was current in `before`.
pub open spec fn made_function(before: Interpreter, arity: nat, body: Seq<Stmt>, after: Interpreter) -> bool {
    &&& after.function_count() == before.function_count() + 1
    &&& after.function_closure(before.function_count()) == before.current()
    &&& after.function_body(before.function_count()) == body
    &&& after.function_arity(before.function_count()) == arity
    &&& !after.function_is_initializer(before.function_count())
}

/// The name a class member is declared under.
pub open spec fn member_name(m: ClassMember) -> Seq<char> {
    match m {
        ClassMember::Method { name, .. } => name.lexeme@,
        ClassMember::StaticMethod { name, .. } => name.lexeme@,
        ClassMember::Getter { name, .. } => name.lexeme@,
    }
}

/// How many parameters a class member takes (a getter takes none).
pub open spec fn member_arity(m: ClassMember) -> nat {
    match m {
        ClassMember::Method { parameters, .. } => parameters@.len(),
        ClassMember::StaticMethod { parameters, .. } => parameters@.len(),
        ClassMember::Getter { .. } => 0,
    }
}

/// The statements of a class member's body.
pub open spec fn member_body(m: ClassMember) -> Seq<Stmt> {
    match m {
        ClassMember::Method { body, .. } => body@,
        ClassMember::StaticMethod { body, .. } => body@,
        ClassMember::Getter { body, .. } => body@,
    }
}

/// Function `f` of `after` is the one made for member `m`, closing over scope
/// `env`; only an instance method named `init` is an initializer.
pub open spec fn member_made(after: Interpreter, m: ClassMember, f: nat, env: nat) -> bool {
    &&& after.function_name(f) == member_name(m)
    &&& after.function_arity(f) == member_arity(m)
    &&& after.function_body(f) == member_body(m)
    &&& after.function_closure(f) == env
    &&& after.function_is_initializer(f) == (m is Method && member_name(m) == "init"@)
}

/// The table, by name, of the members that `wanted` picks, the member at
/// index `i` standing for function `first + i`; a later member of the same
/// name wins.
pub open spec fn member_table(members: Seq<ClassMember>, wanted: spec_fn(ClassMember) -> bool, first: nat) -> Map<
    Seq<char>,
    FunctionRef,
>
    decreases members.len(),
{
    if members.len() == 0 {
        Map::empty()
    } else {
        let rest = member_table(members.drop_last(), wanted, first);
        if wanted(members.last()) {
            rest.insert(member_name(members.last()), (first + members.len() - 1) as usize)
        } else {
            rest
        }
    }
}

/// The instance methods among `members`.
pub open spec fn method_table(members: Seq<ClassMember>, first: nat) -> Map<Seq<char>, FunctionRef> {
    member_table(members, |m: ClassMember| m is Method, first)
}

/// The static methods among `members`.
pub open spec fn static_table(members: Seq<ClassMember>, first: nat) -> Map<Seq<char>, FunctionRef> {
    member_table(members, |m: ClassMember| m is StaticMethod, first)
}

/// The getters among `members`.
pub open spec fn getter_table(members: Seq<ClassMember>, first: nat) -> Map<Seq<char>, FunctionRef> {
    member_table(members, |m: ClassMember| m is Getter, first)
}

/// One more member extends each table by that member, where it is of the
/// table's kind.
proof fn lemma_tables_step(members: Seq<ClassMember>, first: nat, i: int)
    requires
        0 <= i < members.len(),
    ensures
        method_table(members.take(i + 1), first) == if members[i] is Method {
            method_table(members.take(i), first).insert(member_name(members[i]), (first + i) as usize)
        } else {
            method_table(members.take(i), first)
        },
        static_table(members.take(i + 1), first) == if members[i] is StaticMethod {
            static_table(members.take(i), first).insert(member_name(members[i]), (first + i) as usize)
        } else {
            static_table(members.take(i), first)
        },
        getter_table(members.take(i + 1), first) == if members[i] is Getter {
            getter_table(members.take(i), first).insert(member_name(members[i]), (first + i) as usize)
        } else {
            getter_table(members.take(i), first)
        },
{
    assert(members.take(i + 1).drop_last() =~= members.take(i));
    assert(members.take(i + 1).last() == members[i]);
}

/// Appending a pair binds its name to its function, over what the earlier
/// pairs bind.
proof fn lemma_members_push(pairs: Seq<(String, FunctionRef)>, p: (String, FunctionRef))
    ensures
        crate::interpreter::lox_class::members(pairs.push(p)) == crate::interpreter::lox_class::members(pairs).insert(p.0@, p.1),
{
    assert(pairs.push(p).drop_last() =~= pairs);
}

/// `after` holds, as the new class object `base.class_object_count()`, the
/// class `name` that `members` declare, made from `base`: one new function
/// per member, in order, closing over scope `env`; an instance class with
/// the name, the superclass of class object `sc` (if any), the instance
/// methods and the getters; and a metaclass holding the static methods.
pub open spec fn class_made(
    base: Interpreter,
    name: Seq<char>,
    members: Seq<ClassMember>,
    sc: Option<nat>,
    env: nat,
    after: Interpreter,
) -> bool {
    let k = base.class_object_count();
    let f0 = base.function_count();
    let ic = after.instance_class_of(k) as nat;
    let mc = after.metaclass_of(k) as nat;
    &&& after.class_object_count() == k + 1
    &&& after.function_count() == f0 + members.len()
    &&& forall|i: int| 0 <= i < members.len() ==> member_made(after, #[trigger] members[i], (f0 + i) as nat, env)
    &&& after.class_name(ic) == name
    &&& after.class_superclass(ic) == match sc {
        Some(c) => Some(after.instance_class_of(c)),
        None => None,
    }
    &&& after.class_methods(ic) == method_table(members, f0)
    &&& after.class_getters(ic) == getter_table(members, f0)
    &&& after.class_name(mc) == name + " metaclass"@
    &&& after.class_superclass(mc) is None
    &&& after.class_methods(mc) == static_table(members, f0)
    &&& after.class_getters(mc) == Map::<Seq<char>, FunctionRef>::empty()
}

/// `s0` is `start` with one step spent and `name` declared, with no value
/// yet, in the current scope.
pub open spec fn name_declared(start: Interpreter, name: Seq<char>, s0: Interpreter) -> bool {
    &&& s0.steps_left() + 1 == start.steps_left()
    &&& s0.follows(start)
    &&& s0.current() == start.current()
    &&& s0.printed() == start.printed()
    &&& s0.same_callables(start)
    &&& start.current() == 0 ==> s0.scopes()[0].values == start.scopes()[0].values.insert(name, None)
    &&& start.current() != 0 ==> s0.scopes() == start.scopes().update(
        start.current() as int,
        EnvironmentView {
            local_values: start.scopes()[start.current() as int].local_values.push(None),
            ..start.scopes()[start.current() as int]
        },
    )
}

/// The class made from `base` (see `class_made`) is the class object now
/// bound to `name`: in the global scope at the top level, else in the last
/// local slot of the current scope, the one its declaration made.
pub open spec fn class_bound(
    base: Interpreter,
    name: Seq<char>,
    members: Seq<ClassMember>,
    sc: Option<nat>,
    env: nat,
    after: Interpreter,
) -> bool {
    &&& class_made(base, name, members, sc, env, after)
    &&& base.current() == 0 ==> after.scopes()[0].values == base.scopes()[0].values.insert(
        name,
        Some(Value::Class(base.class_object_count() as usize)),
    )
    &&& base.current() != 0 ==> after.scopes()[base.current() as int].local_values == base.scopes()[base.current() as int].local_values.update(
        base.scopes()[base.current() as int].local_values.len() - 1,
        Some(Value::Class(base.class_object_count() as usize)),
    )
}

/// The current scope of `s` still holds the name just declared: a global
/// binding of `name` at the top level, a local slot elsewhere.
pub open spec fn still_declared(s: Interpreter, name: Seq<char>) -> bool {
    &&& s.current() == 0 ==> s.scopes()[0].values.contains_key(name)
    &&& s.current() != 0 ==> s.scopes()[s.current() as int].local_values.len() > 0
}

/// After the superclass expression gave `c` in `s1`: an error ends the
/// declaration with it; a value that is no class fails with "Superclass must
/// be a class."; a class object becomes the superclass of the class made
/// from `s1`, whose members close over a new scope holding it, and the
/// declaration succeeds where the name is still declared.
pub open spec fn superclass_checked(
    s1: Interpreter,
    c: Result<Value, RuntimeError>,
    name: Seq<char>,
    members: Seq<ClassMember>,
    after: Interpreter,
    r: ExecutionResult,
) -> bool {
    match c {
        Err(e) => r == ExecutionResult::RuntimeError(e),
        Ok(Value::Class(k)) => {
            &&& r is Success ==> class_bound(s1, name, members, Some(k as nat), s1.scopes().len(), after)
            &&& k < s1.class_object_count() && still_declared(s1, name) ==> r is Success
        },
        Ok(_) => r matches ExecutionResult::RuntimeError(e) && e.message@ == "Superclass must be a class."@,
    }
}

/// How declaring class `name` from `start` ends: with no step left it fails
/// with the step limit; otherwise a step is spent and the name declared
/// (`name_declared`); with no superclass the class is made and bound
/// (`class_bound`), its members closing over the current scope; with one,
/// the superclass expression is evaluated first (`superclass_checked`).
pub open spec fn class_declared<N: NumberOps>(
    numbers: &N,
    start: Interpreter,
    name: Seq<char>,
    superclass: Option<Expr>,
    members: Seq<ClassMember>,
    after: Interpreter,
    r: ExecutionResult,
) -> bool
    decreases start.steps_left(), superclass, 0int,
{
    &&& start.steps_left() == 0 ==> (r matches ExecutionResult::RuntimeError(e) && e.message@
        == "Execution step limit reached."@)
    &&& start.steps_left() > 0 ==> exists|s0: Interpreter|
        #![trigger name_declared(start, name, s0)]
        {
            &&& name_declared(start, name, s0)
            &&& match superclass {
                None => r is Success && class_bound(s0, name, members, None, s0.current(), after),
                Some(e) => exists|s1: Interpreter, c: Result<Value, RuntimeError>|
                    #![trigger superclass_checked(s1, c, name, members, after, r)]
                    {
                        &&& evaluated(numbers, s0, e, s1, c)
                        &&& superclass_checked(s1, c, name, members, after, r)
                    },
            }
        }
}

/// `bound` is `before` with method `m` bound to instance `instance`: a scope
/// holding the instance as `this` inside `m`'s closure, and a new function
/// `g` with `m`'s body closing over it; nothing else differs.
pub open spec fn method_bound(before: Interpreter, instance: nat, m: nat, bound: Interpreter, g: nat) -> bool {
    &&& g == before.function_count()
    &&& bound.function_count() == before.function_count() + 1
    &&& bound.function_body(g) == before.function_body(m)
    &&& bound.function_is_initializer(g) == before.function_is_initializer(m)
    &&& bound.function_closure(g) == before.scopes().len()
    &&& bound.scopes() == before.scopes().push(
        EnvironmentView {
            values: Map::empty(),
            local_values: seq![Some(Value::Instance(instance as usize))],
            enclosing: Some(before.function_closure(m)),
        },
    )
    &&& bound.current() == before.current()
    &&& bound.resolutions() == before.resolutions()
    &&& bound.printed() == before.printed()
    &&& bound.same_instances(before)
}

/// Reading a property of instance `instance` of `before` through its getter
/// `m` ended in `after` with `r`: the getter was bound to the instance
/// (`method_bound`) and the bound function called with no arguments
/// (`call_ran`, or the step limit where no step was left).
pub open spec fn getter_called<N: NumberOps>(numbers: &N, before: Interpreter, instance: nat, m: nat, after: Interpreter, r: Result<Value, RuntimeError>) -> bool
    decreases before.steps_left(), Seq::<Value>::empty(), 10int,
{
    exists|bound: Interpreter|
        #![trigger method_bound(before, instance, m, bound, before.function_count())]
        {
            &&& method_bound(before, instance, m, bound, before.function_count())
            &&& bound.steps_left() < before.steps_left()
            &&& bound.steps_left() > 0 ==> call_ran(numbers, bound, before.function_count(), Seq::empty(), after, r)
            &&& bound.steps_left() == 0 ==> (r matches Err(e) && e.message@ == "Execution step limit reached."@)
        }
}

/// Running `s` from `start` ended in `end` with `r`, as far as execution is
/// stated: a well-formed later state and the outcome `execution_outcome` gives.
pub open spec fn executed<N: NumberOps>(numbers: &N, start: Interpreter, s: Stmt, end: Interpreter, r: ExecutionResult) -> bool
    decreases start.steps_left(), s, 3int,
{
    &&& end.wf()
    &&& end.follows(start)
    &&& start.steps_left() > 0 ==> execution_outcome(numbers, start, s, end, r)
}

/// `entered` is `start` with a new, empty scope pushed inside its current one
/// and made current; nothing else differs.
pub open spec fn block_entry(start: Interpreter, entered: Interpreter) -> bool {
    &&& entered.scopes() == start.scopes().push(
        EnvironmentView { values: Map::empty(), local_values: Seq::empty(), enclosing: Some(start.current()) },
    )
    &&& entered.current() == start.current()
    &&& entered.steps_left() == start.steps_left()
    &&& entered.resolutions() == start.resolutions()
    &&& entered.printed() == start.printed()
    &&& entered.same_instances(start)
    &&& entered.same_callables(start)
}

/// One round of `while (condition) body` from `st`: with no steps left the
/// loop fails with the step limit; otherwise a step is spent and the condition
/// evaluated. An error ends the loop with it, a falsy value ends it with
/// `Success`, and a truthy one runs the body: the round ends the loop
/// (`ended` is `Some`) unless the body succeeds, a `break` in it ending the
/// loop with `Success`.
pub open spec fn loop_step<N: NumberOps>(numbers: &N, st: Interpreter, condition: Expr, body: Stmt, next: Interpreter, ended: Option<
    ExecutionResult,
>) -> bool
    decreases st.steps_left(), body, 5int,
{
    if st.steps_left() == 0 {
        &&& next == st
        &&& ended matches Some(ExecutionResult::RuntimeError(e)) && e.message@ == "Execution step limit reached."@
    } else {
        exists|mid: Interpreter, c: Result<Value, RuntimeError>|
            #![trigger round_end(mid, c, next, ended)]
            {
                &&& evaluated(numbers, st.spent(), condition, mid, c)
                &&& round_end(mid, c, next, ended)
                &&& (c matches Ok(v) && truthy(v)) ==> exists|res: ExecutionResult|
                    #![trigger body_end(res, ended)]
                    mid.steps_left() <= st.steps_left() && executed(numbers, mid, body, next, res) && body_end(res, ended)
            }
    }
}

/// How a round of a `while` loop ends once its condition gave `c` in `mid`:
/// an error ends the loop with it, and a falsy value ends it with `Success`.
pub open spec fn round_end(
    mid: Interpreter,
    c: Result<Value, RuntimeError>,
    next: Interpreter,
    ended: Option<ExecutionResult>,
) -> bool {
    match c {
        Err(e) => ended == Some(ExecutionResult::RuntimeError(e)) && next == mid,
        Ok(v) => !truthy(v) ==> ended == Some(ExecutionResult::Success) && next == mid,
    }
}

/// How a round of a `while` loop ends once its body ended as `res`: a body
/// that succeeds lets the loop go on, a `break` ends the loop with `Success`,
/// and anything else ends the loop with it.
pub open spec fn body_end(res: ExecutionResult, ended: Option<ExecutionResult>) -> bool {
    ended == match res {
        ExecutionResult::Success => None,
        ExecutionResult::Break => Some(ExecutionResult::Success),
        other => Some(other),
    }
}

/// A `while` loop run from `start` through the states `states`, one round
/// each (`loop_step`): every round but the last went on, and the last ended
/// the loop with `r` in `after`.
pub open spec fn loop_ran<N: NumberOps>(
    numbers: &N,
    start: Interpreter,
    condition: Expr,
    body: Stmt,
    states: Seq<Interpreter>,
    ends: Seq<Option<ExecutionResult>>,
    after: Interpreter,
    r: ExecutionResult,
) -> bool
    decreases start.steps_left(), body, 6int,
{
    &&& states.len() == ends.len() + 1
    &&& states[0] == start
    &&& loop_shape(states, ends, after, r)
    &&& forall|k: int|
        0 <= k < ends.len() ==> states[k].steps_left() <= start.steps_left() && loop_step(
            numbers,
            states[k],
            condition,
            body,
            states[k + 1],
            #[trigger] ends[k],
        )
}

/// The rounds of a loop went through `states`, ending as `ends` says: every
/// round but the last went on, and the last ended the loop with `r` in `after`.
pub open spec fn loop_shape(
    states: Seq<Interpreter>,
    ends: Seq<Option<ExecutionResult>>,
    after: Interpreter,
    r: ExecutionResult,
) -> bool {
    &&& states.len() == ends.len() + 1
    &&& ends.len() > 0
    &&& forall|k: int| 0 <= k < ends.len() - 1 ==> #[trigger] ends[k] is None
    &&& ends.last() == Some(r)
    &&& after == states.last()
}

/// One statement of a block, run from `st`: with no steps left it fails
/// with the step limit and changes nothing; otherwise one step is spent and
/// the statement runs from there, ending as `execution_outcome` says.
pub open spec fn block_step<N: NumberOps>(numbers: &N, st: Interpreter, s: Stmt, next: Interpreter, res: ExecutionResult) -> bool
    decreases st.steps_left(), s, 4int,
{
    if st.steps_left() == 0 {
        &&& next == st
        &&& res matches ExecutionResult::RuntimeError(e) && e.message@ == "Execution step limit reached."@
    } else {
        &&& next.follows(st.spent())
        &&& st.steps_left() > 1 ==> execution_outcome(numbers, st.spent(), s, next, res)
    }
}

/// Running `statements` as a block in scope `env` from `before` went through
/// the states in `trace` (the one before each statement that ran, in scope
/// `env`, then the last), each statement ending as `results` says: every one
/// but the last that ran succeeded, the run stopped early only at one that did
/// not, `r` is how the last one ended (`Success` where none ran), and `after`
/// is the last state back in the scope `before` was in.
pub open spec fn ran_block<N: NumberOps>(
    numbers: &N,
    before: Interpreter,
    statements: Seq<Stmt>,
    env: nat,
    trace: Seq<Interpreter>,
    results: Seq<ExecutionResult>,
    after: Interpreter,
    r: ExecutionResult,
) -> bool
    decreases before.steps_left(), statements, 0int,
{
    &&& trace.len() == results.len() + 1
    &&& run_shape(statements.len(), trace, results, r)
    &&& trace[0] == before.in_scope(env)
    &&& forall|k: int|
        0 <= k < results.len() ==> trace[k].steps_left() <= before.steps_left() && block_step(
            numbers,
            trace[k],
            statements[k],
            trace[k + 1],
            #[trigger] results[k],
        )
    &&& after == trace.last().in_scope(before.current())
}

/// A run of `n` statements through the states in `trace`, each one that ran
/// ending as `results` says: every one but the last that ran succeeded, the
/// run stopped early only at one that did not, and `r` is how the last one
/// ended (`Success` where none ran).
pub open spec fn run_shape(n: nat, trace: Seq<Interpreter>, results: Seq<ExecutionResult>, r: ExecutionResult) -> bool {
    &&& trace.len() == results.len() + 1
    &&& results.len() <= n
    &&& forall|k: int| 0 <= k < results.len() - 1 ==> #[trigger] results[k] is Success
    &&& r == (if results.len() == 0 { ExecutionResult::Success } else { results.last() })
    &&& results.len() < n ==> results.len() > 0 && !(r is Success)
}

/// Where the part that ran first gave an error `c` in `mid`, the statement
/// ends there with that error.
pub open spec fn stops_on_error(
    mid: Interpreter,
    c: Result<Value, RuntimeError>,
    after: Interpreter,
    r: ExecutionResult,
) -> bool {
    c matches Err(e) ==> r == ExecutionResult::RuntimeError(e) && after == mid
}

/// Evaluating `left`, then `right` only where the left value does not decide
/// `and` or `or`, is the outcome `evaluation_outcome` states for `e`.
proof fn lemma_logical_outcome<N: NumberOps>(
    numbers: &N,
    before: Interpreter,
    e: Expr,
    mid: Interpreter,
    l: Result<Value, RuntimeError>,
    after: Interpreter,
    r: Result<Value, RuntimeError>,
)
    requires
        before.steps_left() > 0,
        match e {
            Expr::Logical { left, operator, right } => {
                &&& evaluated(numbers, before.spent(), *left, mid, l)
                &&& short_circuit(operator.token_type, mid, l, after, r)
                &&& mid.steps_left() <= before.steps_left()
                &&& (l matches Ok(v) && (operator.token_type == TokenType::Or) != truthy(v)) ==> evaluated(
                    numbers,
                    mid,
                    *right,
                    after,
                    r,
                )
            },
            _ => false,
        },
    ensures
        evaluation_outcome(numbers, before, e, after, r),
{
    if let Expr::Logical { left, operator, right } = e {
        assert(short_circuit(operator.token_type, mid, l, after, r));
    }
}

/// Spending a step takes one step from those left and changes nothing that
/// can be read.
pub proof fn lemma_spent(i: Interpreter)
    ensures
        i.steps_left() > 0 ==> i.spent().steps_left() + 1 == i.steps_left(),
        i.spent().context() == i.context(),
        i.spent().printed() == i.printed(),
        i.spent().same_instances(i),
        i.spent().same_callables(i),
{
}

/// Evaluating the arguments of a call failed: the call ends with that error.
proof fn lemma_call_args_failed<N: NumberOps>(
    numbers: &N,
    mid: Interpreter,
    cv: Value,
    arguments: Seq<Expr>,
    paren: Token,
    after: Interpreter,
    r: Result<Value, RuntimeError>,
)
    requires
        r is Err,
        mid.steps_left() == 0 ==> (r matches Err(e) && e.message@ == "Execution step limit reached."@) && after == mid,
        mid.steps_left() > 0 ==> exists|trace: Seq<Interpreter>, results: Seq<Result<Value, RuntimeError>>|
            #![trigger args_evaluated_to(numbers, mid.spent(), arguments, trace, results, after)]
            {
                &&& args_evaluated_to(numbers, mid.spent(), arguments, trace, results, after)
                &&& match r {
                    Ok(values) => false,
                    Err(e) => args_failed(results) && results.last() == Err::<Value, RuntimeError>(e),
                }
            },
    ensures
        call_after_callee(numbers, mid, cv, arguments, paren, after, r),
{
    if mid.steps_left() > 0 {
        lemma_spent(mid);
        let (trace, results) = choose|trace: Seq<Interpreter>, results: Seq<Result<Value, RuntimeError>>|
            {
                &&& args_evaluated_to(numbers, mid.spent(), arguments, trace, results, after)
                &&& match r {
                    Ok(values) => false,
                    Err(e) => args_failed(results) && results.last() == Err::<Value, RuntimeError>(e),
                }
            };
        assert(args_outcome(trace, results, after, r));
    }
}

/// The arguments of a call gave the values `vals`, and the callee was called
/// with them from `mid2`: the call ends as `call_gives` says.
proof fn lemma_call_made<N: NumberOps>(
    numbers: &N,
    mid: Interpreter,
    mid2: Interpreter,
    cv: Value,
    arguments: Seq<Expr>,
    vals: Seq<Value>,
    paren: Token,
    after: Interpreter,
    r: Result<Value, RuntimeError>,
)
    requires
        mid.steps_left() > 0,
        exists|trace: Seq<Interpreter>, results: Seq<Result<Value, RuntimeError>>|
            #![trigger args_evaluated_to(numbers, mid.spent(), arguments, trace, results, mid2)]
            {
                &&& args_evaluated_to(numbers, mid.spent(), arguments, trace, results, mid2)
                &&& !args_failed(results) && vals == ok_values(results)
            },
        call_gives(numbers, mid2, cv, vals, paren, after, r),
    ensures
        call_after_callee(numbers, mid, cv, arguments, paren, after, r),
{
    lemma_spent(mid);
    let (trace, results) = choose|trace: Seq<Interpreter>, results: Seq<Result<Value, RuntimeError>>|
        {
            &&& args_evaluated_to(numbers, mid.spent(), arguments, trace, results, mid2)
            &&& !args_failed(results) && vals == ok_values(results)
        };
    assert(args_outcome(trace, results, after, r));
}

/// A later state of an interpreter has printed what the earlier one had.
pub proof fn lemma_follows_keeps_printed(later: Interpreter, earlier: Interpreter)
    requires
        later.follows(earlier),
    ensures
        later.keeps_printed(earlier),
{
    assert forall|k: int| 0 <= k < earlier.printed().len() implies later.printed()[k] == earlier.printed()[k] by {
        assert(later.output@[k] == earlier.output@[k]);
    }
}

/// An assignment to a resolved local whose value gave `c` in `mid` sets that
/// value in the one slot the resolver placed the variable in, and changes
/// nothing else that can be read.
pub open spec fn slot_assigned(
    mid: Interpreter,
    c: Result<Value, RuntimeError>,
    at: LocalResolution,
    after: Interpreter,
    r: Result<Value, RuntimeError>,
) -> bool {
    c matches Ok(v) && {
        &&& r == Ok::<Value, RuntimeError>(v)
        &&& after.scopes() == set_local(
            mid.scopes(),
            ancestor_of(mid.scopes(), mid.current(), at.distance as nat),
            at.slot as nat,
            Some(v),
        )
        &&& after.current() == mid.current()
        &&& after.resolutions() == mid.resolutions()
        &&& after.printed() == mid.printed()
    }
}

/// An assignment to a variable the resolver did not place, whose value gave
/// `c` in `mid`: an error ends it; otherwise the nearest binding of `name`
/// from the global scope takes the value, which is the result, or, where
/// there is none, it fails as undefined.
pub open spec fn global_assigned(
    mid: Interpreter,
    c: Result<Value, RuntimeError>,
    name: Seq<char>,
    after: Interpreter,
    r: Result<Value, RuntimeError>,
) -> bool {
    match c {
        Err(e) => r == Err::<Value, RuntimeError>(e) && after == mid,
        Ok(v) => {
            &&& after.current() == mid.current()
            &&& after.resolutions() == mid.resolutions()
            &&& after.printed() == mid.printed()
            &&& match lookup(mid.scopes(), 0, name) {
                Some((e, _)) => r == Ok::<Value, RuntimeError>(v) && after.scopes() == bind_in(
                    mid.scopes(),
                    e,
                    name,
                    Some(v),
                ),
                None => r matches Err(err) && err.message@ == undefined_message(name) && after.scopes()
                    == mid.scopes(),
            }
        },
    }
}

/// How `and` or `or` ends once its left operand gave `l` in `mid`: an error
/// ends it with that error, and a value that decides it (truthy for `or`,
/// falsy for `and`) is itself the result; otherwise the right operand runs.
pub open spec fn short_circuit(
    op: TokenType,
    mid: Interpreter,
    l: Result<Value, RuntimeError>,
    after: Interpreter,
    r: Result<Value, RuntimeError>,
) -> bool {
    match l {
        Err(err) => r == Err::<Value, RuntimeError>(err) && after == mid,
        Ok(v) => (op == TokenType::Or) == truthy(v) ==> r == Ok::<Value, RuntimeError>(v) && after == mid,
    }
}

/// Evaluating `e` from `start` ended in `end` with `r`, as far as evaluation
/// is stated: a later state, the outcome `evaluation_outcome` gives, the kind
/// of value `result_kind` gives, and the outcome `pure_value` decides.
pub open spec fn evaluated<N: NumberOps>(numbers: &N, start: Interpreter, e: Expr, end: Interpreter, r: Result<Value, RuntimeError>) -> bool
    decreases start.steps_left(), e, 1int,
{
    &&& end.follows(start)
    &&& start.steps_left() > 0 ==> evaluation_outcome(numbers, start, e, end, r)
    &&& (r matches Ok(v) ==> result_kind(e, v))
    &&& start.steps_left() >= expr_size(e) ==> match pure_value(start.context(), e) {
        Some(outcome) => {
            &&& has_outcome(r, outcome)
            &&& end.context() == start.context()
            &&& end.printed() == start.printed()
            &&& end.same_instances(start)
            &&& end.same_callables(start)
            &&& end.steps_left() + expr_size(e) >= start.steps_left()
        },
        None => true,
    }
}

/// What evaluating `e` in `before` (with steps left) is known to give, where
/// the outermost form of `e` decides it: a literal is its value; a grouping
/// is its inner expression; a variable (or `this`) reads as `variable_value`
/// says and changes nothing; a unary expression evaluates its operand and
/// gives what `unary_gives` says; a binary expression evaluates its left
/// operand, then its right one, and gives what `binary_gives` says of the two
/// values, an error in either ending it; `and` and `or` evaluate the left
/// operand, give it back where it decides the result and evaluate the right
/// operand only where it does not; an assignment evaluates its value and
/// stores it, in its resolved local slot (`slot_assigned`) or its global
/// binding (`global_assigned`); a property write evaluates the object, then
/// the value, and stores it in the instance's field (`set_after_object`); a
/// property read evaluates the object and reads the field, getter, method or
/// static method (`get_after_object`); `super.m` binds the superclass's
/// method to `this` (`super_outcome`); a call evaluates the callee, then the
/// arguments, and calls it (`call_after_callee`): a function runs its body
/// with the arguments, a class makes an instance, the wrong number of
/// arguments fails, and `clock()` gives a number; a function expression
/// makes a new function that closes over the current scope
/// (`made_function`).
pub open spec fn evaluation_outcome<N: NumberOps>(numbers: &N, before: Interpreter, e: Expr, after: Interpreter, r: Result<Value, RuntimeError>) -> bool
    decreases before.steps_left(), e, 0int,
{
    match e {
        Expr::Logical { left, operator, right } => exists|mid: Interpreter, l: Result<Value, RuntimeError>|
            #![trigger short_circuit(operator.token_type, mid, l, after, r)]
            {
                &&& evaluated(numbers, before.spent(), *left, mid, l)
                &&& short_circuit(operator.token_type, mid, l, after, r)
                &&& mid.steps_left() <= before.steps_left()
                &&& (l matches Ok(v) && (operator.token_type == TokenType::Or) != truthy(v)) ==> evaluated(
                    numbers,
                    mid,
                    *right,
                    after,
                    r,
                )
            },
        Expr::Literal { value } => r == Ok::<Value, RuntimeError>(Value::Literal(value)),
        Expr::Unary { operator, right } => {
            &&& before.steps_left() > expr_size(*right) && operator.token_type == TokenType::Minus ==> match pure_value(
                before.context(),
                *right,
            ) {
                Some(Ok(v)) => !is_number(v) ==> (r matches Err(err) && err.token == operator && err.message@
                    == "Operand must be a number."@),
                _ => true,
            }
            &&& exists|mid: Interpreter, c: Result<Value, RuntimeError>|
                #![trigger operand_end(mid, c, after, r)]
                {
                    &&& evaluated(numbers, before.spent(), *right, mid, c)
                    &&& operand_end(mid, c, after, r)
                    &&& c matches Ok(v) ==> unary_gives(numbers, operator, v, r)
                }
        },
        Expr::Grouping { expression } => evaluated(numbers, before.spent(), *expression, after, r),
        Expr::Variable { id, name } => {
            &&& match before.variable_value(id, name.lexeme@) {
                Some(v) => r == Ok::<Value, RuntimeError>(v),
                None => r is Err,
            }
            &&& !before.resolutions().contains_key(id) && lookup(before.scopes(), 0, name.lexeme@) is None ==> (r matches Err(
                err,
            ) && err.message@ == undefined_message(name.lexeme@))
            &&& after.scopes() == before.scopes()
            &&& after.printed() == before.printed()
        },
        Expr::This { id, keyword } => {
            &&& match before.variable_value(id, keyword.lexeme@) {
                Some(v) => r == Ok::<Value, RuntimeError>(v),
                None => r is Err,
            }
            &&& after.scopes() == before.scopes()
            &&& after.printed() == before.printed()
        },
        Expr::Assign { id, name, value } => {
            &&& r matches Ok(v) ==> after.variable_value(id, name.lexeme@) == Some(v)
            &&& (r is Ok && before.resolutions().contains_key(id)) ==> exists|
                mid: Interpreter,
                c: Result<Value, RuntimeError>,
            |
                #![trigger slot_assigned(mid, c, before.resolutions()[id], after, r)]
                evaluated(numbers, before.spent(), *value, mid, c) && slot_assigned(mid, c, before.resolutions()[id], after, r)
            &&& !before.resolutions().contains_key(id) ==> exists|mid: Interpreter, c: Result<Value, RuntimeError>|
                #![trigger global_assigned(mid, c, name.lexeme@, after, r)]
                evaluated(numbers, before.spent(), *value, mid, c) && global_assigned(mid, c, name.lexeme@, after, r)
        },
        Expr::Get { object, name } => (before.steps_left() > expr_size(*object) + 1 ==> match pure_value(
            before.context(),
            *object,
        ) {
            Some(Ok(Value::Instance(i))) => i < before.instance_count() ==> if before.fields_of_instance(
                i as nat,
            ).contains_key(name.lexeme@) {
                r == Ok::<Value, RuntimeError>(before.fields_of_instance(i as nat)[name.lexeme@])
            } else if before.getter_of(before.class_of_instance(i as nat) as nat, name.lexeme@) is None {
                match before.method_of(before.class_of_instance(i as nat) as nat, name.lexeme@) {
                    Some(m) => m < before.function_count() ==> {
                        &&& r == Ok::<Value, RuntimeError>(
                            Value::Callable(Callable::Function(before.function_count() as usize)),
                        )
                        &&& method_bound(before, i as nat, m as nat, after, before.function_count())
                    },
                    None => r matches Err(err) && err.message@ == undefined_property_message(name.lexeme@),
                }
            } else {
                true
            },
            Some(Ok(Value::Class(c))) => c < before.class_object_count() ==> match before.static_method_of(
                c as nat,
                name.lexeme@,
            ) {
                Some(m) => r == Ok::<Value, RuntimeError>(Value::Callable(Callable::Function(m))),
                None => r matches Err(err) && err.message@ == undefined_property_message(name.lexeme@),
            },
            _ => true,
        }) && (before.steps_left() > 0 ==> exists|mid: Interpreter, c: Result<Value, RuntimeError>|
            #![trigger left_end(mid, c, after, r)]
            {
                &&& mid.steps_left() < before.steps_left()
                &&& evaluated(numbers, before.spent(), *object, mid, c)
                &&& left_end(mid, c, after, r)
                &&& c matches Ok(ov) ==> get_after_object(numbers, mid, ov, name, after, r)
            }),
        Expr::SetProperty { object, name, value } => (before.steps_left() > expr_size(*object) ==> match pure_value(
            before.context(),
            *object,
        ) {
            Some(Ok(Value::Instance(i))) => r matches Ok(v) ==> {
                &&& i < after.instance_count()
                &&& after.fields_of_instance(i as nat).contains_key(name.lexeme@)
                &&& after.fields_of_instance(i as nat)[name.lexeme@] == v
            },
            _ => true,
        }) && (before.steps_left() > 0 ==> exists|mid: Interpreter, c: Result<Value, RuntimeError>|
            #![trigger left_end(mid, c, after, r)]
            {
                &&& mid.steps_left() < before.steps_left()
                &&& evaluated(numbers, before.spent(), *object, mid, c)
                &&& left_end(mid, c, after, r)
                &&& c matches Ok(ov) ==> set_after_object(numbers, mid, ov, name, *value, after, r)
            }),
        Expr::Super { id, keyword, method } => {
            &&& (r is Err || r matches Ok(Value::Callable(Callable::Function(_))))
            &&& before.resolutions().contains_key(id) && before.resolutions()[id].distance > 0 ==> super_outcome(
                before.spent(),
                before.resolutions()[id],
                keyword,
                method,
                after,
                r,
            )
        },
        Expr::Function { params, body } => {
            &&& r == Ok::<Value, RuntimeError>(Value::Callable(Callable::Function(before.function_count() as usize)))
            &&& made_function(before, params@.len(), body@, after)
            &&& after.scopes() == before.scopes()
            &&& after.printed() == before.printed()
        },
        Expr::Binary { left, operator, right } => {
            &&& before.steps_left() >= expr_size(e) && operator.token_type == TokenType::Plus ==> match (
                pure_value(before.context(), *left),
                pure_value(before.context(), *right),
            ) {
                (Some(Ok(Value::Literal(Literal::String(a)))), Some(Ok(Value::Literal(Literal::String(b))))) => (r matches Ok(
                    Value::Literal(Literal::String(s)),
                ) && s@ == a@ + b@),
                _ => true,
            }
            &&& exists|mid: Interpreter, l: Result<Value, RuntimeError>|
                #![trigger left_end(mid, l, after, r)]
                {
                    &&& evaluated(numbers, before.spent(), *left, mid, l)
                    &&& left_end(mid, l, after, r)
                    &&& mid.steps_left() <= before.steps_left()
                    &&& l matches Ok(lv) ==> exists|mid2: Interpreter, rr: Result<Value, RuntimeError>|
                        #![trigger binary_end(numbers, operator, lv, mid2, rr, after, r)]
                        evaluated(numbers, mid, *right, mid2, rr) && binary_end(numbers, operator, lv, mid2, rr, after, r)
                }
        },
        Expr::Call { callee, paren, arguments } => (before.steps_left() >= expr_size(e) ==> match pure_args(
            before.context(),
            arguments@,
        ) {
            Some(Ok(values)) => match pure_value(before.context(), *callee) {
                Some(Ok(Value::Callable(Callable::Clock))) => values.len() == 0 ==> (r matches Ok(
                    Value::Literal(Literal::Number(_)),
                )),
                Some(Ok(Value::Callable(Callable::Function(f)))) => f < before.function_count() && values.len()
                    != before.function_arity(f as nat) ==> (r matches Err(err) && err.message@ == arity_message(
                    before.function_arity(f as nat),
                    values.len(),
                )),
                Some(Ok(Value::Class(c))) => c < before.class_object_count() && values.len()
                    != before.class_object_arity(c as nat) ==> (r matches Err(err) && err.message@ == arity_message(
                    before.class_object_arity(c as nat),
                    values.len(),
                )),
                _ => true,
            },
            _ => true,
        }) && (before.steps_left() > 0 ==> exists|mid: Interpreter, c: Result<Value, RuntimeError>|
            #![trigger left_end(mid, c, after, r)]
            {
                &&& mid.steps_left() < before.steps_left()
                &&& evaluated(numbers, before.spent(), *callee, mid, c)
                &&& left_end(mid, c, after, r)
                &&& c matches Ok(cv) ==> call_after_callee(numbers, mid, cv, arguments@, paren, after, r)
            }),
        _ => true,
    }
}

/// How running `s` in `before` (with steps left) can end, and how each form
/// of statement runs its parts: an expression statement evaluates its
/// expression; `print` evaluates its expression and prints its text
/// (`display`); `var` evaluates its initializer and declares the name with
/// its value, or `nil` (`declared`); `if`, `while` and blocks run as
/// `executed`, `loop_ran` and `ran_block` say; `return` evaluates its value;
/// an error in an expression ends the statement with it. Only `break` ends
/// in `Break`, and a loop never does; only `return` ends in `Return`, with
/// its value (`nil` where it has none); a function declaration makes a new
/// function that closes over the current scope (`made_function`) and
/// declares its name (`declared`); a class declaration makes and binds its
/// class as `class_declared` says.
pub open spec fn execution_outcome<N: NumberOps>(numbers: &N, before: Interpreter, s: Stmt, after: Interpreter, r: ExecutionResult) -> bool
    decreases before.steps_left(), s, 2int,
{
    match s {
        Stmt::Block { statements } => exists|
            entered: Interpreter,
            trace: Seq<Interpreter>,
            results: Seq<ExecutionResult>,
        |
            #![trigger block_entry(before.spent(), entered), run_shape(statements@.len(), trace, results, r)]
            {
                &&& block_entry(before.spent(), entered)
                &&& ran_block(numbers, entered, statements@, before.scopes().len(), trace, results, after, r)
            },
        Stmt::Expression { expression } => {
            &&& r is Success || r is RuntimeError
            &&& before.steps_left() > expr_size(expression) ==> match pure_value(before.context(), expression) {
                Some(Ok(_)) => r is Success && after.context() == before.context() && after.printed()
                    == before.printed(),
                Some(Err(m)) => r matches ExecutionResult::RuntimeError(err) && err.message@ == m,
                None => true,
            }
            &&& exists|mid: Interpreter, c: Result<Value, RuntimeError>|
                #![trigger stops_on_error(mid, c, after, r)]
                {
                    &&& evaluated(numbers, before.spent(), expression, mid, c)
                    &&& stops_on_error(mid, c, after, r)
                    &&& c is Ok ==> r is Success && after == mid
                }
        },
        Stmt::Print { expression } => {
            &&& r is Success || r is RuntimeError
            &&& r is Success ==> after.printed().len() > before.printed().len()
            &&& before.steps_left() > expr_size(expression) ==> match pure_value(before.context(), expression) {
                Some(Ok(v)) => match shown(v) {
                    Some(t) => r is Success && after.printed() == before.printed().push(t) && after.context()
                        == before.context(),
                    None => true,
                },
                Some(Err(m)) => r matches ExecutionResult::RuntimeError(err) && err.message@ == m && after.printed()
                    == before.printed(),
                None => true,
            }
            &&& exists|mid: Interpreter, c: Result<Value, RuntimeError>|
                #![trigger stops_on_error(mid, c, after, r)]
                {
                    &&& evaluated(numbers, before.spent(), expression, mid, c)
                    &&& stops_on_error(mid, c, after, r)
                    &&& c matches Ok(v) ==> r is Success && line_printed(mid, display(numbers, mid, v), after)
                }
        },
        Stmt::Var { name, initializer } => {
            &&& r is Success || r is RuntimeError
            &&& r is Success && before.current() == 0 ==> after.scopes()[0].values.contains_key(name.lexeme@)
            &&& r is Success && before.current() == 0 && initializer is None ==> after.scopes()[0].values[name.lexeme@] is None
            &&& match initializer {
                Some(init) => before.current() == 0 && before.steps_left() > expr_size(init) ==> global_var_outcome(
                    before,
                    name.lexeme@,
                    init,
                    after,
                    r,
                ),
                None => true,
            }
            &&& match initializer {
                Some(init) => exists|mid: Interpreter, c: Result<Value, RuntimeError>|
                    #![trigger stops_on_error(mid, c, after, r)]
                    {
                        &&& evaluated(numbers, before.spent(), init, mid, c)
                        &&& stops_on_error(mid, c, after, r)
                        &&& c matches Ok(v) ==> r is Success && declared(mid, name.lexeme@, Some(v), after)
                    },
                None => r is Success && declared(before.spent(), name.lexeme@, None, after),
            }
        },
        Stmt::If { condition, then_branch, else_branch } => {
            &&& before.steps_left() > expr_size(condition) ==> match pure_value(before.context(), condition) {
                Some(Ok(v)) => !truthy(v) && else_branch is None ==> r is Success && after.context()
                    == before.context() && after.printed() == before.printed(),
                Some(Err(m)) => r matches ExecutionResult::RuntimeError(err) && err.message@ == m,
                None => true,
            }
            &&& exists|mid: Interpreter, c: Result<Value, RuntimeError>|
                #![trigger stops_on_error(mid, c, after, r)]
                {
                    &&& evaluated(numbers, before.spent(), condition, mid, c)
                    &&& stops_on_error(mid, c, after, r)
                    &&& mid.steps_left() <= before.steps_left()
                    &&& c matches Ok(v) ==> if truthy(v) {
                        executed(numbers, mid, *then_branch, after, r)
                    } else {
                        match else_branch {
                            Some(b) => executed(numbers, mid, *b, after, r),
                            None => r is Success && after == mid,
                        }
                    }
                }
        },
        Stmt::While { condition, body } => {
            &&& exists|states: Seq<Interpreter>, ends: Seq<Option<ExecutionResult>>|
                #![trigger loop_shape(states, ends, after, r)]
                loop_ran(numbers, before.spent(), condition, *body, states, ends, after, r)
            &&& !(r is Break)
            &&& before.steps_left() > 1 + expr_size(condition) ==> match pure_value(before.context(), condition) {
                Some(Ok(v)) => !truthy(v) ==> r is Success && after.context() == before.context()
                    && after.printed() == before.printed(),
                Some(Err(m)) => r matches ExecutionResult::RuntimeError(err) && err.message@ == m,
                None => true,
            }
        },
        Stmt::Break => {
            &&& r is Break
            &&& after.scopes() == before.scopes()
            &&& after.printed() == before.printed()
        },
        Stmt::Function { name, parameters, body } => {
            &&& r is Success
            &&& made_function(before, parameters@.len(), body@, after)
            &&& declared(before, name.lexeme@, Some(Value::Callable(Callable::Function(before.function_count() as usize))), after)
            &&& before.current() == 0 ==> after.scopes()[0].values[name.lexeme@] == Some(
                Value::Callable(Callable::Function(before.function_count() as usize)),
            )
        },
        Stmt::Class { name, superclass, methods } => {
            &&& r is Success || r is RuntimeError
            &&& before.steps_left() > 1 && superclass is None ==> r is Success
            &&& before.steps_left() > 0 ==> class_declared(numbers, before.spent(), name.lexeme@, superclass, methods@, after, r)
            &&& before.current() == 0 && before.steps_left() > 2 && r is Success && (superclass matches None
                || superclass matches Some(Expr::Variable { .. })) ==> after.scopes()[0].values[name.lexeme@]
                matches Some(Value::Class(_))
        },
        Stmt::Return { value, .. } => {
            &&& r is Return || r is RuntimeError
            &&& match value {
                None => r == ExecutionResult::Return(Value::Literal(Literal::Nil)),
                Some(e) => before.steps_left() > expr_size(e) ==> match pure_value(before.context(), e) {
                    Some(Ok(v)) => r == ExecutionResult::Return(v) && after.context() == before.context()
                        && after.printed() == before.printed(),
                    Some(Err(m)) => r matches ExecutionResult::RuntimeError(err) && err.message@ == m,
                    None => true,
                },
            }
            &&& value matches Some(e) ==> exists|mid: Interpreter, c: Result<Value, RuntimeError>|
                #![trigger stops_on_error(mid, c, after, r)]
                {
                    &&& evaluated(numbers, before.spent(), e, mid, c)
                    &&& stops_on_error(mid, c, after, r)
                    &&& c matches Ok(v) ==> r == ExecutionResult::Return(v) && after == mid
                }
        },
        _ => true,
    }
}

/// Declaring `name` at the top level with an initializer whose outcome
/// the library alone decides binds `name` to its value, or fails with its error.
pub open spec fn global_var_outcome(before: Interpreter, name: Seq<char>, init: Expr, after: Interpreter, r: ExecutionResult) -> bool {
    match pure_value(before.context(), init) {
        Some(Ok(v)) => r is Success && after.scopes()[0].values == before.scopes()[0].values.insert(name, Some(v)),
        Some(Err(m)) => r matches ExecutionResult::RuntimeError(err) && err.message@ == m,
        None => true,
    }
}

/// How `print` shows a value, for the values it shows without the host:
/// strings, booleans, `nil` and the native clock.
pub open spec fn shown(v: Value) -> Option<Seq<char>> {
    match v {
        Value::Literal(Literal::String(t)) => Some(t@),
        Value::Literal(Literal::Boolean(b)) => Some(if b { "true"@ } else { "false"@ }),
        Value::Literal(Literal::Nil) => Some("nil"@),
        Value::Callable(Callable::Clock) => Some("<fn clock>"@),
        _ => None,
    }
}

/// The message for operands of the wrong kind, if `op` applied to `l` and `r` has one.
pub open spec fn operand_error(op: TokenType, l: Value, r: Value) -> Option<Seq<char>> {
    if op == TokenType::Plus {
        if (is_number(l) && is_number(r)) || is_string(l) || is_string(r) {
            None
        } else {
            Some("Operands must be two numbers or at least one string."@)
        }
    } else if op == TokenType::EqualEqual || op == TokenType::BangEqual {
        None
    } else if is_number(l) && is_number(r) {
        None
    } else {
        Some("Operands must be numbers."@)
    }
}

fn error_at(token: &Token, message: &str) -> (e: RuntimeError)
    ensures
        e.token == *token,
        e.message@ == message@,
{
    RuntimeError { token: token.clone(), message: owned(message) }
}

pub(crate) fn internal_error(message: &str) -> (e: RuntimeError)
    ensures
        e.message@ == message@,
{
    let token = Token::new(TokenType::Eof, String::new(), None, 0);
    RuntimeError { token, message: owned(message) }
}

/// `Expected <n> arguments but got <m>.`
pub open spec fn arity_message(expected: nat, got: nat) -> Seq<char> {
    "Expected "@ + decimal(expected) + " arguments but got "@ + decimal(got) + "."@
}

fn arity_error(paren: &Token, expected: usize, got: usize) -> (e: RuntimeError)
    ensures
        e.token == *paren,
        e.message@ == arity_message(expected as nat, got as nat),
{
    let mut message = owned("Expected ");
    let a = usize_to_string(expected);
    append_str(&mut message, a.as_str());
    append_str(&mut message, " arguments but got ");
    let b = usize_to_string(got);
    append_str(&mut message, b.as_str());
    append_str(&mut message, ".");
    RuntimeError { token: paren.clone(), message }
}

/// The interpreter's state. Scopes, functions, classes and instances each
/// live in an arena and are named by their index there.
pub struct Interpreter {
    environments: Vec<Environment>,
    environment: EnvironmentRef,
    locals: HashMap<ExprId, LocalResolution>,
    functions: Vec<LoxFunction>,
    classes: Vec<LoxClass>,
    class_objects: Vec<ClassObject>,
    instances: Vec<LoxInstance>,
    output: Vec<String>,
    budget: u64,
}

impl Interpreter {
    /// The arenas refer only to what they hold: scopes enclose earlier
    /// scopes, superclasses come before their subclasses, and functions,
    /// class objects and instances name existing scopes and classes.
    pub closed spec fn wf(&self) -> bool {
        &&& self.environments@.len() > 0
        &&& self.environment < self.environments@.len()
        &&& envs_wf(env_views(self.environments@))
        &&& forall|i: int|
            0 <= i < self.functions@.len() ==> (#[trigger] self.functions@[i]).closure()
                < self.environments@.len()
        &&& classes_wf(self.classes@)
        &&& forall|i: int|
            0 <= i < self.class_objects@.len() ==> (#[trigger] self.class_objects@[i]).instance_class()
                < self.classes@.len() && self.class_objects@[i].metaclass() < self.classes@.len()
        &&& forall|i: int|
            0 <= i < self.instances@.len() ==> (#[trigger] self.instances@[i]).klass()
                < self.classes@.len()
    }

    /// The scopes.
    pub closed spec fn scopes(&self) -> Seq<crate::environment::EnvironmentView> {
        env_views(self.environments@)
    }

    /// The current scope.
    pub closed spec fn current(&self) -> nat {
        self.environment as nat
    }

    /// Where the resolver placed each resolved expression.
    pub closed spec fn resolutions(&self) -> Map<ExprId, LocalResolution> {
        self.locals@
    }

    /// The lines printed so far.
    pub closed spec fn printed(&self) -> Seq<Seq<char>> {
        self.output@.map_values(|s: String| s@)
    }

    /// How many more evaluation steps may be taken.
    pub closed spec fn steps_left(&self) -> nat {
        self.budget as nat
    }

    /// What the variable named `name` at expression `id` reads as in the
    /// current scope: the local slot the resolver placed it in, or else its
    /// global binding; `None` where there is no such slot or binding.
    pub open spec fn variable_value(&self, id: ExprId, name: Seq<char>) -> Option<Value> {
        value_in(self.context(), id, name)
    }

    /// What reading a variable depends on: the scopes, where the resolver
    /// placed each expression, and the current scope.
    pub open spec fn context(&self) -> Context {
        Context { scopes: self.scopes(), resolutions: self.resolutions(), current: self.current() }
    }

    /// `self` is a later state of `old`: still well formed, in the same
    /// scope, with no more steps left, and with the resolutions unchanged.
    pub closed spec fn follows(&self, old: Interpreter) -> bool {
        &&& self.wf()
        &&& self.environment == old.environment
        &&& self.budget <= old.budget
        &&& self.locals@ == old.locals@
        &&& self.output@.len() >= old.output@.len()
        &&& forall|k: int| 0 <= k < old.output@.len() ==> self.output@[k] == old.output@[k]
        &&& self.environments@.len() >= old.environments@.len()
        &&& self.functions@.len() >= old.functions@.len()
        &&& self.classes@.len() >= old.classes@.len()
        &&& self.class_objects@.len() >= old.class_objects@.len()
        &&& self.instances@.len() >= old.instances@.len()
        &&& forall|k: int| 0 <= k < old.instances@.len() ==> (#[trigger] self.instances@[k]).klass() == old.instances@[k].klass()
    }

    /// `self` differs from `old` in its resolutions at most: the same scopes,
    /// current scope and printed lines.
    pub open spec fn unchanged_but_resolutions(&self, old: Interpreter) -> bool {
        &&& self.scopes() == old.scopes()
        &&& self.current() == old.current()
        &&& self.printed() == old.printed()
    }

    /// The lines `old` had printed are still the first lines printed.
    pub open spec fn keeps_printed(&self, old: Interpreter) -> bool {
        &&& self.printed().len() >= old.printed().len()
        &&& forall|k: int| 0 <= k < old.printed().len() ==> self.printed()[k] == old.printed()[k]
    }

    /// How many classes there are.
    pub closed spec fn class_count(&self) -> nat {
        self.classes@.len()
    }

    /// The name of class `k`.
    pub closed spec fn class_name(&self, k: nat) -> Seq<char> {
        self.classes@[k as int].name_spec()
    }

    /// The superclass of class `k`, if it has one.
    pub closed spec fn class_superclass(&self, k: nat) -> Option<usize> {
        self.classes@[k as int].superclass()
    }

    /// The methods declared in class `k` itself.
    pub closed spec fn class_methods(&self, k: nat) -> Map<Seq<char>, FunctionRef> {
        self.classes@[k as int].methods()
    }

    /// The getters declared in class `k` itself.
    pub closed spec fn class_getters(&self, k: nat) -> Map<Seq<char>, FunctionRef> {
        self.classes@[k as int].getters()
    }

    /// The metaclass of class object `c`: the class holding its static methods.
    pub closed spec fn metaclass_of(&self, c: nat) -> usize {
        self.class_objects@[c as int].metaclass()
    }

    /// How many functions there are.
    pub closed spec fn function_count(&self) -> nat {
        self.functions@.len()
    }

    /// The name of function `f`, or `anonymous`.
    pub closed spec fn function_name(&self, f: nat) -> Seq<char> {
        match self.functions@[f as int].name_token() {
            Some(t) => t.lexeme@,
            None => "anonymous"@,
        }
    }

    /// How many class objects there are.
    pub closed spec fn class_object_count(&self) -> nat {
        self.class_objects@.len()
    }

    /// How many instances there are.
    pub closed spec fn instance_count(&self) -> nat {
        self.instances@.len()
    }

    /// The fields of instance `i`.
    pub closed spec fn fields_of_instance(&self, i: nat) -> Map<Seq<char>, Value> {
        self.instances@[i as int].fields()
    }

    /// `self` has the same instances, with the same fields, as `old`.
    pub closed spec fn same_instances(&self, old: Interpreter) -> bool {
        self.instances@ == old.instances@
    }

    /// The statements of function `f`'s body.
    pub closed spec fn function_body(&self, f: nat) -> Seq<Stmt> {
        self.functions@[f as int].body_spec()
    }

    /// The scope function `f` closes over.
    pub closed spec fn function_closure(&self, f: nat) -> nat {
        self.functions@[f as int].closure() as nat
    }

    /// Whether function `f` is a class's `init` method.
    pub closed spec fn function_is_initializer(&self, f: nat) -> bool {
        self.functions@[f as int].is_initializer()
    }

    /// `self`, moved into scope `env`.
    pub closed spec fn in_scope(&self, env: nat) -> Interpreter {
        Interpreter { environment: env as usize, ..*self }
    }

    /// `self`, with one step spent.
    pub closed spec fn spent(&self) -> Interpreter {
        Interpreter { budget: if self.budget == 0 { 0 } else { (self.budget - 1) as u64 }, ..*self }
    }

    /// `self` has the same functions, classes and class objects as `old`.
    pub closed spec fn same_callables(&self, old: Interpreter) -> bool {
        &&& self.functions@ == old.functions@
        &&& self.classes@ == old.classes@
        &&& self.class_objects@ == old.class_objects@
    }

    /// The method `name` of class `class` or of its nearest superclass that has one.
    pub closed spec fn method_of(&self, class: nat, name: Seq<char>) -> Option<FunctionRef> {
        class_method(self.classes@, class, name)
    }

    /// The getter `name` of class `class` or of its nearest superclass that has one.
    pub closed spec fn getter_of(&self, class: nat, name: Seq<char>) -> Option<FunctionRef> {
        class_getter(self.classes@, class, name)
    }

    /// The static method `name` of class object `c`.
    pub closed spec fn static_method_of(&self, c: nat, name: Seq<char>) -> Option<FunctionRef> {
        let methods = self.classes@[self.class_objects@[c as int].metaclass() as int].methods();
        if methods.contains_key(name) {
            Some(methods[name])
        } else {
            None
        }
    }

    /// How many arguments function `f` takes.
    pub closed spec fn function_arity(&self, f: nat) -> nat {
        self.functions@[f as int].arity_spec() as nat
    }

    /// How many arguments calling class object `c` takes.
    pub closed spec fn class_object_arity(&self, c: nat) -> nat {
        constructor_arity(self.classes@, self.functions@, self.class_objects@[c as int].instance_class() as nat)
    }

    /// The class of instance `i`.
    pub closed spec fn class_of_instance(&self, i: nat) -> usize {
        self.instances@[i as int].klass()
    }

    /// The instance class of class object `c`.
    pub closed spec fn instance_class_of(&self, c: nat) -> usize {
        self.class_objects@[c as int].instance_class()
    }

    /// A fresh interpreter: a global scope holding `clock`, and no resolutions.
    pub fn new() -> (i: Interpreter)
        ensures
            i.wf(),
            i.current() == 0,
            i.scopes().len() == 1,
            i.scopes()[0].values == Map::<Seq<char>, Option<Value>>::empty().insert(
                "clock"@,
                Some(Value::Callable(Callable::Clock)),
            ),
            i.resolutions() == Map::<ExprId, LocalResolution>::empty(),
            i.printed().len() == 0,
            i.steps_left() == u64::MAX,
    {
        let mut globals = Environment::new();
        globals.define(owned("clock"), Some(Value::Callable(Callable::Clock)));
        let mut environments = Vec::new();
        environments.push(globals);
        let i = Interpreter {
            environments,
            environment: 0,
            locals: HashMap::new(),
            functions: Vec::new(),
            classes: Vec::new(),
            class_objects: Vec::new(),
            instances: Vec::new(),
            output: Vec::new(),
            budget: u64::MAX,
        };
        proof {
            assert(i.printed() =~= Seq::<Seq<char>>::empty());
            assert(envs_wf(env_views(i.environments@)));
        }
        i
    }

    /// Hands over the printed lines, leaving none.
    pub fn take_output(&mut self) -> (lines: Vec<String>)
        requires
            old(self).wf(),
        ensures
            lines@.map_values(|s: String| s@) == old(self).printed(),
            final(self).printed().len() == 0,
            final(self).wf(),
            final(self).scopes() == old(self).scopes(),
            final(self).current() == old(self).current(),
            final(self).resolutions() == old(self).resolutions(),
    {
        let mut lines = Vec::new();
        std::mem::swap(&mut lines, &mut self.output);
        assert(self.printed() =~= Seq::<Seq<char>>::empty());
        lines
    }

    /// Prints a line.
    pub fn print_line(&mut self, line: String)
        requires
            old(self).wf(),
        ensures
            final(self).wf(),
            final(self).printed() == old(self).printed().push(line@),
            final(self).scopes() == old(self).scopes(),
            final(self).current() == old(self).current(),
            final(self).resolutions() == old(self).resolutions(),
    {
        self.output.push(line);
        assert(self.printed() =~= old(self).printed().push(line@));
    }

    /// The lines printed so far.
    pub fn output(&self) -> (lines: &Vec<String>)
        ensures
            lines@.map_values(|s: String| s@) == self.printed(),
    {
        &self.output
    }

    /// Records that expression `id` refers to slot `slot` of the scope
    /// `distance` steps out from where it is evaluated.
    pub fn resolve(&mut self, id: ExprId, distance: usize, slot: usize)
        requires
            old(self).wf(),
        ensures
            final(self).wf(),
            final(self).resolutions() == old(self).resolutions().insert(id, LocalResolution { distance, slot }),
            final(self).scopes() == old(self).scopes(),
            final(self).current() == old(self).current(),
            final(self).printed() == old(self).printed(),
    {
        self.locals.insert(id, LocalResolution { distance, slot });
    }

    /// Runs statements in order, stopping at the first that does not end in `Success`.
    pub fn interpret<N: NumberOps>(&mut self, statements: &[Stmt], numbers: &N) -> (r: ExecutionResult)
        requires
            old(self).wf(),
        ensures
            final(self).wf(),
            final(self).follows(*old(self)),
            final(self).current() == old(self).current(),
            final(self).resolutions() == old(self).resolutions(),
            final(self).keeps_printed(*old(self)),
            statements@.len() == 0 ==> r is Success,
            old(self).steps_left() > 0 && statements@.len() == 1 ==> execution_outcome(
                numbers,
                *old(self),
                statements@[0],
                *final(self),
                r,
            ),
            exists|trace: Seq<Interpreter>, results: Seq<ExecutionResult>|
                runs_in_order(numbers, *old(self), statements@, trace, results, *final(self), r),
    {
        let ghost mut trace: Seq<Interpreter> = seq![*self];
        let ghost mut results: Seq<ExecutionResult> = Seq::empty();
        let mut i: usize = 0;
        while i < statements.len()
            invariant
                self.follows(*old(self)),
                i <= statements@.len(),
                i == 0 ==> *self == *old(self),
                old(self).steps_left() > 0 && statements@.len() == 1 && i == 1 ==> execution_outcome(
                    numbers,
                    *old(self),
                    statements@[0],
                    *self,
                    ExecutionResult::Success,
                ),
                results.len() == i,
                ran_prefix(numbers, *old(self), statements@, trace, results, *self),
                forall|k: int| 0 <= k < results.len() ==> #[trigger] results[k] is Success,
            decreases statements@.len() - i,
        {
            let ghost before = *self;
            let result = self.execute(&statements[i], numbers);
            proof {
                lemma_follows_keeps_printed(*self, *old(self));
                trace = trace.push(*self);
                results = results.push(result);
                assert(trace[i as int] == before);
                assert(results[i as int] == result);
            }
            match result {
                ExecutionResult::Success => {},
                result => {
                    proof {
                        assert(runs_in_order(numbers, *old(self), statements@, trace, results, *self, result));
                    }
                    return result;
                },
            }
            i = i + 1;
        }
        proof {
            lemma_follows_keeps_printed(*self, *old(self));
            assert(runs_in_order(numbers, *old(self), statements@, trace, results, *self, ExecutionResult::Success));
        }
        ExecutionResult::Success
    }

    /// Evaluates an expression in the current scope.
    pub fn evaluate_expression<N: NumberOps>(&mut self, expression: &Expr, numbers: &N) -> (r: Result<
        Value,
        RuntimeError,
    >)
        requires
            old(self).wf(),
        ensures
            final(self).wf(),
            final(self).follows(*old(self)),
            old(self).steps_left() > 0 ==> evaluation_outcome(numbers, *old(self), *expression, *final(self), r),
            r matches Ok(v) ==> result_kind(*expression, v),
            final(self).current() == old(self).current(),
            final(self).resolutions() == old(self).resolutions(),
            final(self).keeps_printed(*old(self)),
            old(self).steps_left() >= expr_size(*expression) ==> match pure_value(old(self).context(), *expression) {
                Some(outcome) => {
                    &&& has_outcome(r, outcome)
                    &&& final(self).context() == old(self).context()
                    &&& final(self).printed() == old(self).printed()
                    &&& final(self).same_instances(*old(self))
                    &&& final(self).same_callables(*old(self))
                    &&& final(self).steps_left() + expr_size(*expression) >= old(self).steps_left()
                },
                None => true,
            },
    {
        let r = self.evaluate(expression, numbers);
        proof {
            lemma_follows_keeps_printed(*self, *old(self));
        }
        r
    }

    fn budget_error() -> (e: RuntimeError)
        ensures
            e.message@ == "Execution step limit reached."@,
    {
        internal_error("Execution step limit reached.")
    }

    // ------------------------------------------------------------------
    // Arena updates that keep the interpreter well formed.

    fn push_environment(&mut self, e: Environment) -> (r: EnvironmentRef)
        requires
            old(self).wf(),
            e@.enclosing matches Some(j) ==> j < old(self).environments@.len(),
        ensures
            final(self).wf(),
            final(self).follows(*old(self)),
            r == old(self).environments@.len(),
            final(self).environments@.len() == old(self).environments@.len() + 1,
            final(self).scopes() == old(self).scopes().push(e@),
            final(self).same_instances(*old(self)),
            final(self).same_callables(*old(self)),
            final(self).environment == old(self).environment,
            final(self).budget == old(self).budget,
            final(self).locals@ == old(self).locals@,
            final(self).output@ == old(self).output@,
    {
        let r = self.environments.len();
        self.environments.push(e);
        proof {
            let old_v = env_views(old(self).environments@);
            let new_v = env_views(self.environments@);
            assert(new_v =~= old_v.push(e@));
            assert forall|i: int| 0 <= i < new_v.len() implies match (#[trigger] new_v[i]).enclosing {
                Some(j) => j < i,
                None => true,
            } by {
                if i < old_v.len() {
                    assert(new_v[i] == old_v[i]);
                }
            }
            assert forall|i: int| 0 <= i < self.functions@.len() implies (#[trigger] self.functions@[i]).closure()
                < self.environments@.len() by {}
        }
        r
    }

    /// Applies `f` to one scope without changing what it encloses.
    fn define_named(&mut self, env: EnvironmentRef, name: String, value: Option<Value>)
        requires
            old(self).wf(),
            env < old(self).environments@.len(),
        ensures
            final(self).same_callables(*old(self)),
            final(self).wf(),
            final(self).follows(*old(self)),
            final(self).environments@.len() == old(self).environments@.len(),
            final(self).scopes() == old(self).scopes().update(
                env as int,
                crate::environment::EnvironmentView {
                    values: old(self).scopes()[env as int].values.insert(name@, value),
                    ..old(self).scopes()[env as int]
                },
            ),
            final(self).environment == old(self).environment,
            final(self).budget == old(self).budget,
            final(self).locals@ == old(self).locals@,
            final(self).output@ == old(self).output@,
    {
        let mut frame = Environment::new();
        std::mem::swap(&mut frame, &mut self.environments[env]);
        frame.define(name, value);
        std::mem::swap(&mut frame, &mut self.environments[env]);
        proof {
            let old_v = env_views(old(self).environments@);
            let new_v = env_views(self.environments@);
            assert(new_v =~= old_v.update(
                env as int,
                crate::environment::EnvironmentView { values: old_v[env as int].values.insert(name@, value), ..old_v[env as int] },
            ));
            assert forall|i: int| 0 <= i < new_v.len() implies match (#[trigger] new_v[i]).enclosing {
                Some(j) => j < i,
                None => true,
            } by {
                assert(new_v[i].enclosing == old_v[i].enclosing);
            }
        }
    }

    fn define_local_in(&mut self, env: EnvironmentRef, value: Option<Value>)
        requires
            old(self).wf(),
            env < old(self).environments@.len(),
        ensures
            final(self).same_callables(*old(self)),
            final(self).wf(),
            final(self).follows(*old(self)),
            final(self).environments@.len() == old(self).environments@.len(),
            final(self).scopes() == old(self).scopes().update(
                env as int,
                crate::environment::EnvironmentView {
                    local_values: old(self).scopes()[env as int].local_values.push(value),
                    ..old(self).scopes()[env as int]
                },
            ),
            final(self).environment == old(self).environment,
            final(self).budget == old(self).budget,
            final(self).locals@ == old(self).locals@,
            final(self).output@ == old(self).output@,
            final(self).same_instances(*old(self)),
            final(self).same_callables(*old(self)),
    {
        let mut frame = Environment::new();
        std::mem::swap(&mut frame, &mut self.environments[env]);
        frame.define_local(value);
        std::mem::swap(&mut frame, &mut self.environments[env]);
        proof {
            let old_v = env_views(old(self).environments@);
            let new_v = env_views(self.environments@);
            assert(new_v =~= old_v.update(
                env as int,
                crate::environment::EnvironmentView { local_values: old_v[env as int].local_values.push(value), ..old_v[env as int] },
            ));
            assert forall|i: int| 0 <= i < new_v.len() implies match (#[trigger] new_v[i]).enclosing {
                Some(j) => j < i,
                None => true,
            } by {
                assert(new_v[i].enclosing == old_v[i].enclosing);
            }
        }
    }

    fn assign_last_local_in(&mut self, env: EnvironmentRef, value: Option<Value>)
        requires
            old(self).wf(),
            env < old(self).environments@.len(),
            old(self).scopes()[env as int].local_values.len() > 0,
        ensures
            final(self).wf(),
            final(self).follows(*old(self)),
            final(self).environments@.len() == old(self).environments@.len(),
            final(self).scopes() == old(self).scopes().update(
                env as int,
                crate::environment::EnvironmentView {
                    local_values: old(self).scopes()[env as int].local_values.update(
                        old(self).scopes()[env as int].local_values.len() - 1,
                        value,
                    ),
                    ..old(self).scopes()[env as int]
                },
            ),
            final(self).environment == old(self).environment,
            final(self).budget == old(self).budget,
            final(self).locals@ == old(self).locals@,
            final(self).output@ == old(self).output@,
            final(self).same_instances(*old(self)),
            final(self).same_callables(*old(self)),
    {
        let mut frame = Environment::new();
        std::mem::swap(&mut frame, &mut self.environments[env]);
        assert(frame@ == old(self).scopes()[env as int]);
        frame.assign_last_local(value);
        std::mem::swap(&mut frame, &mut self.environments[env]);
        proof {
            let old_v = env_views(old(self).environments@);
            let new_v = env_views(self.environments@);
            assert forall|i: int| 0 <= i < new_v.len() implies match (#[trigger] new_v[i]).enclosing {
                Some(j) => j < i,
                None => true,
            } by {
                if i != env {
                    assert(new_v[i] == old_v[i]);
                }
            }
        }
    }

    fn push_function(&mut self, f: LoxFunction) -> (r: FunctionRef)
        requires
            old(self).wf(),
            f.closure() < old(self).environments@.len(),
        ensures
            final(self).wf(),
            final(self).follows(*old(self)),
            r == old(self).functions@.len(),
            final(self).functions@ == old(self).functions@.push(f),
            final(self).environments == old(self).environments,
            final(self).environment == old(self).environment,
            final(self).budget == old(self).budget,
            final(self).locals@ == old(self).locals@,
            final(self).output@ == old(self).output@,
            final(self).classes == old(self).classes,
            final(self).class_objects@ == old(self).class_objects@,
            final(self).instances@ == old(self).instances@,
    {
        let r = self.functions.len();
        self.functions.push(f);
        proof {
            assert forall|i: int| 0 <= i < self.functions@.len() implies (#[trigger] self.functions@[i]).closure()
                < self.environments@.len() by {
                if i < r {
                    assert(self.functions@[i] == old(self).functions@[i]);
                }
            }
        }
        r
    }

    /// A bound copy of method `f` with `this` set to `instance`.
    fn bind_method(&mut self, f: FunctionRef, instance: InstanceRef) -> (r: Option<FunctionRef>)
        requires
            old(self).wf(),
        ensures
            final(self).wf(),
            final(self).follows(*old(self)),
            final(self).environment == old(self).environment,
            final(self).budget == old(self).budget,
            final(self).locals@ == old(self).locals@,
            final(self).output@ == old(self).output@,
            r is Some <==> f < old(self).functions@.len(),
            r matches Some(g) ==> g < final(self).functions@.len(),
            r matches Some(g) ==> {
                &&& g == old(self).functions@.len()
                &&& final(self).functions@.len() == old(self).functions@.len() + 1
                &&& final(self).function_body(g as nat) == old(self).function_body(f as nat)
                &&& final(self).function_is_initializer(g as nat) == old(self).function_is_initializer(f as nat)
                &&& final(self).function_closure(g as nat) == old(self).scopes().len()
                &&& final(self).scopes() == old(self).scopes().push(
                    EnvironmentView {
                        values: Map::empty(),
                        local_values: seq![Some(Value::Instance(instance))],
                        enclosing: Some(old(self).function_closure(f as nat)),
                    },
                )
                &&& final(self).same_instances(*old(self))
                &&& final(self).classes@ == old(self).classes@
            },
    {
        if f >= self.functions.len() {
            return None;
        }
        let bound = self.functions[f].bind(&mut self.environments, instance);
        proof {
            assert forall|i: int| 0 <= i < self.functions@.len() implies (#[trigger] self.functions@[i]).closure()
                < self.environments@.len() by {}
            let views = env_views(self.environments@);
            assert(views.last().values =~= Map::<Seq<char>, Option<Value>>::empty());
            assert(views =~= old(self).scopes().push(
                EnvironmentView {
                    values: Map::empty(),
                    local_values: seq![Some(Value::Instance(instance))],
                    enclosing: Some(old(self).function_closure(f as nat)),
                },
            ));
        }
        let r = self.push_function(bound);
        Some(r)
    }

    fn push_class(&mut self, c: LoxClass) -> (r: usize)
        requires
            old(self).wf(),
            c.superclass() matches Some(j) ==> j < old(self).classes@.len(),
        ensures
            final(self).wf(),
            final(self).follows(*old(self)),
            final(self).classes@ == old(self).classes@.push(c),
            final(self).functions@ == old(self).functions@,
            final(self).class_objects@ == old(self).class_objects@,
            final(self).instances@ == old(self).instances@,
            r == old(self).classes@.len(),
            final(self).environments == old(self).environments,
            final(self).environment == old(self).environment,
            final(self).budget == old(self).budget,
            final(self).locals@ == old(self).locals@,
            final(self).output@ == old(self).output@,
    {
        let r = self.classes.len();
        self.classes.push(c);
        proof {
            assert forall|i: int| 0 <= i < self.classes@.len() implies match (#[trigger] self.classes@[i]).superclass() {
                Some(j) => j < i,
                None => true,
            } by {
                if i < r {
                    assert(self.classes@[i] == old(self).classes@[i]);
                }
            }
            assert forall|i: int| 0 <= i < self.class_objects@.len() implies (#[trigger] self.class_objects@[i]).instance_class()
                < self.classes@.len() && self.class_objects@[i].metaclass() < self.classes@.len() by {}
            assert forall|i: int| 0 <= i < self.instances@.len() implies (#[trigger] self.instances@[i]).klass()
                < self.classes@.len() by {}
        }
        r
    }

    fn push_class_object(&mut self, c: ClassObject) -> (r: usize)
        requires
            old(self).wf(),
            c.instance_class() < old(self).classes@.len(),
            c.metaclass() < old(self).classes@.len(),
        ensures
            final(self).wf(),
            final(self).follows(*old(self)),
            r == old(self).class_objects@.len(),
            final(self).class_objects@ == old(self).class_objects@.push(c),
            final(self).functions@ == old(self).functions@,
            final(self).classes@ == old(self).classes@,
            final(self).same_instances(*old(self)),
            final(self).environments == old(self).environments,
            final(self).environment == old(self).environment,
            final(self).budget == old(self).budget,
            final(self).locals@ == old(self).locals@,
            final(self).output@ == old(self).output@,
    {
        let r = self.class_objects.len();
        self.class_objects.push(c);
        proof {
            assert forall|i: int| 0 <= i < self.class_objects@.len() implies (#[trigger] self.class_objects@[i]).instance_class()
                < self.classes@.len() && self.class_objects@[i].metaclass() < self.classes@.len() by {
                if i < r {
                    assert(self.class_objects@[i] == old(self).class_objects@[i]);
                }
            }
        }
        r
    }

    fn push_instance(&mut self, i: LoxInstance) -> (r: InstanceRef)
        requires
            old(self).wf(),
            i.klass() < old(self).classes@.len(),
        ensures
            final(self).wf(),
            final(self).follows(*old(self)),
            r == old(self).instances@.len(),
            final(self).instances@.len() == old(self).instances@.len() + 1,
            final(self).instances@[r as int] == i,
            final(self).instances@.drop_last() == old(self).instances@,
            final(self).same_callables(*old(self)),
            final(self).environments == old(self).environments,
            final(self).environment == old(self).environment,
            final(self).budget == old(self).budget,
            final(self).locals@ == old(self).locals@,
            final(self).output@ == old(self).output@,
    {
        let r = self.instances.len();
        self.instances.push(i);
        proof {
            assert(self.instances@.drop_last() =~= old(self).instances@);
            assert forall|k: int| 0 <= k < self.instances@.len() implies (#[trigger] self.instances@[k]).klass()
                < self.classes@.len() by {
                if k < r {
                    assert(self.instances@[k] == old(self).instances@[k]);
                }
            }
        }
        r
    }

    fn set_field(&mut self, instance: InstanceRef, name: &Token, value: Value)
        requires
            old(self).wf(),
            instance < old(self).instances@.len(),
        ensures
            final(self).wf(),
            final(self).follows(*old(self)),
            final(self).environments == old(self).environments,
            final(self).environment == old(self).environment,
            final(self).budget == old(self).budget,
            final(self).locals@ == old(self).locals@,
            final(self).output@ == old(self).output@,
            final(self).instance_count() == old(self).instance_count(),
            final(self).fields_of_instance(instance as nat) == old(self).fields_of_instance(instance as nat).insert(
                name.lexeme@,
                value,
            ),
    {
        let mut obj = LoxInstance::new(0);
        std::mem::swap(&mut obj, &mut self.instances[instance]);
        obj.set(name, value);
        std::mem::swap(&mut obj, &mut self.instances[instance]);
        proof {
            assert forall|k: int| 0 <= k < self.instances@.len() implies (#[trigger] self.instances@[k]).klass()
                < self.classes@.len() by {
                if k != instance {
                    assert(self.instances@[k] == old(self).instances@[k]);
                }
            }
        }
    }

    // ------------------------------------------------------------------
    // Classes.

    /// The method `name` of class `class` or of its nearest superclass that has one.
    fn find_method(&self, class: usize, name: &String) -> (r: Option<FunctionRef>)
        requires
            self.wf(),
            class < self.classes@.len(),
        ensures
            r == class_method(self.classes@, class as nat, name@),
    {
        find_inherited_method(&self.classes, class, name)
    }

    /// The getter `name` of class `class` or of its nearest superclass that has one.
    fn find_getter(&self, class: usize, name: &String) -> (r: Option<FunctionRef>)
        requires
            self.wf(),
            class < self.classes@.len(),
        ensures
            r == class_getter(self.classes@, class as nat, name@),
    {
        find_inherited_getter(&self.classes, class, name)
    }

    /// How many arguments constructing an instance of class object `c` takes:
    /// those of its `init` method, or none.
    fn class_arity(&self, c: usize) -> (n: usize)
        requires
            self.wf(),
            c < self.class_objects@.len(),
        ensures
            n == self.class_object_arity(c as nat),
    {
        self.class_objects[c].arity(&self.classes, &self.functions)
    }

    // ------------------------------------------------------------------
    // Statements.

    pub(crate) fn execute<N: NumberOps>(&mut self, statement: &Stmt, numbers: &N) -> (r: ExecutionResult)
        requires
            old(self).wf(),
        ensures
            final(self).wf(),
            final(self).follows(*old(self)),
            old(self).steps_left() > 0 ==> execution_outcome(numbers, *old(self), *statement, *final(self), r),
        decreases old(self).steps_left(),
    {
        if self.budget == 0 {
            return ExecutionResult::RuntimeError(Self::budget_error());
        }
        self.budget = self.budget - 1;
        proof {
            assert(*self == old(self).spent());
        }
        match statement {
            Stmt::Expression { expression } => {
                let c = self.evaluate(expression, numbers);
                let ghost cg = c;
                let ghost mid = *self;
                let r = match c {
                    Ok(_) => ExecutionResult::Success,
                    Err(error) => ExecutionResult::RuntimeError(error),
                };
                proof {
                    assert(stops_on_error(mid, cg, *self, r));
                }
                r
            },
            Stmt::Print { expression } => {
                let c = self.evaluate(expression, numbers);
                let ghost cg = c;
                let ghost mid = *self;
                match c {
                    Ok(value) => {
                        let text = self.stringify(&value, numbers);
                        let ghost printed_before = self.printed();
                        self.output.push(text);
                        assert(self.printed() =~= printed_before.push(text@));
                        proof {
                            assert(line_printed(mid, display(numbers, mid, value), *self));
                            assert(stops_on_error(mid, cg, *self, ExecutionResult::Success));
                        }
                        ExecutionResult::Success
                    },
                    Err(error) => {
                        proof {
                            assert(stops_on_error(mid, cg, *self, ExecutionResult::RuntimeError(error)));
                        }
                        ExecutionResult::RuntimeError(error)
                    },
                }
            },
            Stmt::Var { name, initializer } => match initializer {
                Some(expression) => {
                    let c = self.evaluate(expression, numbers);
                    let ghost cg = c;
                    let ghost mid = *self;
                    match c {
                        Ok(value) => {
                            self.define_variable(name, Some(value));
                            proof {
                                assert(stops_on_error(mid, cg, *self, ExecutionResult::Success));
                            }
                            ExecutionResult::Success
                        },
                        Err(error) => {
                            proof {
                                assert(stops_on_error(mid, cg, mid, ExecutionResult::RuntimeError(error)));
                            }
                            ExecutionResult::RuntimeError(error)
                        },
                    }
                },
                None => {
                    self.define_variable(name, None);
                    ExecutionResult::Success
                },
            },
            Stmt::Block { statements } => {
                let scope = Environment::from(self.environment);
                proof {
                    assert(scope@.local_values =~= Seq::empty());
                    assert(scope@ == EnvironmentView {
                        values: Map::empty(),
                        local_values: Seq::empty(),
                        enclosing: Some(self.current()),
                    });
                }
                let environment = self.push_environment(scope);
                let ghost entered = *self;
                proof {
                    assert(block_entry(old(self).spent(), entered));
                }
                let r = self.execute_block(statements.as_slice(), environment, numbers);
                proof {
                    let (trace, results) = choose|trace: Seq<Interpreter>, results: Seq<ExecutionResult>|
                        ran_block(numbers, entered, statements@, environment as nat, trace, results, *self, r);
                    assert(run_shape(statements@.len(), trace, results, r));
                }
                r
            },
            Stmt::If { condition, then_branch, else_branch } => {
                let c = self.evaluate(condition, numbers);
                let ghost cg = c;
                let ghost mid = *self;
                let condition = match c {
                    Ok(value) => value,
                    Err(error) => {
                        proof {
                            assert(stops_on_error(mid, cg, mid, ExecutionResult::RuntimeError(error)));
                        }
                        return ExecutionResult::RuntimeError(error);
                    },
                };
                if Self::is_truthy(&condition) {
                    let r = self.execute(then_branch, numbers);
                    proof {
                        assert(stops_on_error(mid, cg, *self, r));
                    }
                    r
                } else {
                    match else_branch {
                        Some(else_branch) => {
                            let r = self.execute(else_branch, numbers);
                            proof {
                                assert(stops_on_error(mid, cg, *self, r));
                            }
                            r
                        },
                        None => {
                            proof {
                                assert(stops_on_error(mid, cg, mid, ExecutionResult::Success));
                            }
                            ExecutionResult::Success
                        },
                    }
                }
            },
            Stmt::While { condition, body } => {
                let ghost entry = *self;
                let ghost mut first = true;
                let ghost mut states: Seq<Interpreter> = seq![*self];
                let ghost mut ends: Seq<Option<ExecutionResult>> = Seq::empty();
                loop
                    invariant_except_break
                        first ==> *self == entry,
                        states.len() == ends.len() + 1,
                        states[0] == entry,
                        states.last() == *self,
                        forall|k: int|
                            0 <= k < ends.len() ==> loop_step(
                                numbers,
                                states[k],
                                *condition,
                                **body,
                                states[k + 1],
                                #[trigger] ends[k],
                            ),
                        forall|k: int| 0 <= k < ends.len() ==> #[trigger] ends[k] is None,
                        forall|k: int| 0 <= k < states.len() ==> (#[trigger] states[k]).steps_left() <= entry.steps_left(),
                        self.steps_left() <= entry.steps_left(),
                    invariant
                        self.follows(*old(self)),
                        *statement matches Stmt::While { .. },
                        *statement matches Stmt::While { condition: c, .. } && c == *condition,
                        *statement matches Stmt::While { body: b, .. } && b == *body,
                        entry.budget + 1 == old(self).budget,
                        entry == old(self).spent(),
                        entry.context() == old(self).context(),
                        entry.printed() == old(self).printed(),
                        !first && old(self).budget > 1 + expr_size(*condition) ==> match pure_value(
                            old(self).context(),
                            *condition,
                        ) {
                            Some(Ok(v)) => truthy(v),
                            Some(Err(_)) => false,
                            None => true,
                        },
                    ensures
                        self.follows(*old(self)),
                        old(self).budget > 1 + expr_size(*condition) ==> match pure_value(
                            old(self).context(),
                            *condition,
                        ) {
                            Some(Ok(v)) => !truthy(v) ==> self.context() == old(self).context() && self.printed()
                                == old(self).printed(),
                            Some(Err(_)) => false,
                            None => true,
                        },
                        exists|states: Seq<Interpreter>, ends: Seq<Option<ExecutionResult>>|
                            #![trigger loop_shape(states, ends, *self, ExecutionResult::Success)]
                            loop_ran(numbers, entry, *condition, **body, states, ends, *self, ExecutionResult::Success),
                    decreases self.budget,
                {
                    let ghost st = *self;
                    if self.budget == 0 {
                        let error = Self::budget_error();
                        proof {
                            let ended = Some(ExecutionResult::RuntimeError(error));
                            assert(loop_step(numbers, st, *condition, **body, st, ended));
                            states = states.push(st);
                            ends = ends.push(ended);
                            assert(loop_shape(states, ends, *self, ExecutionResult::RuntimeError(error)));
                            assert(loop_ran(numbers, entry, *condition, **body, states, ends, *self, ExecutionResult::RuntimeError(error)));
                        }
                        return ExecutionResult::RuntimeError(error);
                    }
                    self.budget = self.budget - 1;
                    proof {
                        assert(*self == st.spent());
                    }
                    let c = self.evaluate(condition, numbers);
                    let ghost cg = c;
                    let ghost mid = *self;
                    let condition_value = match c {
                        Ok(value) => value,
                        Err(error) => {
                            proof {
                                let ended = Some(ExecutionResult::RuntimeError(error));
                                assert(round_end(mid, cg, mid, ended));
                                assert(loop_step(numbers, st, *condition, **body, mid, ended));
                                states = states.push(mid);
                                ends = ends.push(ended);
                                assert(loop_shape(states, ends, *self, ExecutionResult::RuntimeError(error)));
                                assert(loop_ran(numbers, entry, *condition, **body, states, ends, *self, ExecutionResult::RuntimeError(error)));
                            }
                            return ExecutionResult::RuntimeError(error);
                        },
                    };
                    if !Self::is_truthy(&condition_value) {
                        proof {
                            let ended = Some(ExecutionResult::Success);
                            assert(round_end(mid, cg, mid, ended));
                            assert(loop_step(numbers, st, *condition, **body, mid, ended));
                            states = states.push(mid);
                            ends = ends.push(ended);
                            assert(loop_shape(states, ends, *self, ExecutionResult::Success));
                        }
                        break;
                    }
                    proof {
                        first = false;
                    }
                    let res = self.execute(body, numbers);
                    let ghost after = *self;
                    let ghost ended: Option<ExecutionResult> = if res is Success {
                        None
                    } else if res is Break {
                        Some(ExecutionResult::Success)
                    } else {
                        Some(res)
                    };
                    proof {
                        assert(round_end(mid, cg, after, ended));
                        assert(body_end(res, ended));
                        assert(loop_step(numbers, st, *condition, **body, after, ended));
                        states = states.push(after);
                        ends = ends.push(ended);
                    }
                    match res {
                        ExecutionResult::Success => {},
                        ExecutionResult::Break => {
                            proof {
                                assert(loop_shape(states, ends, *self, ExecutionResult::Success));
                            }
                            break;
                        },
                        ExecutionResult::RuntimeError(error) => {
                            proof {
                                assert(loop_shape(states, ends, *self, ExecutionResult::RuntimeError(error)));
                                assert(loop_ran(numbers, entry, *condition, **body, states, ends, *self, ExecutionResult::RuntimeError(error)));
                            }
                            return ExecutionResult::RuntimeError(error);
                        },
                        ExecutionResult::Return(value) => {
                            proof {
                                assert(loop_shape(states, ends, *self, ExecutionResult::Return(value)));
                                assert(loop_ran(numbers, entry, *condition, **body, states, ends, *self, ExecutionResult::Return(value)));
                            }
                            return ExecutionResult::Return(value);
                        },
                    }
                }
                ExecutionResult::Success
            },
            Stmt::Break => ExecutionResult::Break,
            Stmt::Function { name, parameters, body } => {
                let function = LoxFunction::new(
                    Some(name.clone()),
                    Rc::clone(parameters),
                    Rc::clone(body),
                    self.environment,
                    false,
                );
                let f = self.push_function(function);
                self.define_variable(name, Some(Value::Callable(Callable::Function(f))));
                ExecutionResult::Success
            },
            Stmt::Class { name, superclass, methods } => self.execute_class(name, superclass, methods, numbers),
            Stmt::Return { value, .. } => match value {
                Some(expression) => {
                    let c = self.evaluate(expression, numbers);
                    let ghost cg = c;
                    let ghost mid = *self;
                    let r = match c {
                        Ok(value) => ExecutionResult::Return(value),
                        Err(error) => ExecutionResult::RuntimeError(error),
                    };
                    proof {
                        assert(stops_on_error(mid, cg, *self, r));
                    }
                    r
                },
                None => ExecutionResult::Return(Value::Literal(Literal::Nil)),
            },
        }
    }

    /// Makes one function per class member, in order, closing over the
    /// current scope, and gives the tables of instance methods, getters and
    /// static methods.
    fn declare_members(&mut self, members: &Vec<ClassMember>) -> (tables: (
        Vec<(String, FunctionRef)>,
        Vec<(String, FunctionRef)>,
        Vec<(String, FunctionRef)>,
    ))
        requires
            old(self).wf(),
        ensures
            final(self).wf(),
            final(self).follows(*old(self)),
            final(self).environments == old(self).environments,
            final(self).environment == old(self).environment,
            final(self).budget == old(self).budget,
            final(self).output@ == old(self).output@,
            final(self).classes@ == old(self).classes@,
            final(self).class_objects@ == old(self).class_objects@,
            final(self).instances@ == old(self).instances@,
            final(self).functions@.len() == old(self).functions@.len() + members@.len(),
            forall|k: int| 0 <= k < old(self).functions@.len() ==> final(self).functions@[k] == old(self).functions@[k],
            forall|j: int|
                0 <= j < members@.len() ==> member_made(
                    *final(self),
                    #[trigger] members@[j],
                    (old(self).function_count() + j) as nat,
                    old(self).current(),
                ),
            crate::interpreter::lox_class::members(tables.0@) == method_table(members@, old(self).function_count()),
            crate::interpreter::lox_class::members(tables.1@) == getter_table(members@, old(self).function_count()),
            crate::interpreter::lox_class::members(tables.2@) == static_table(members@, old(self).function_count()),
    {
        let ghost f0 = old(self).function_count();
        let ghost env = old(self).current();
        let mut instance_methods: Vec<(String, FunctionRef)> = Vec::new();
        let mut getters: Vec<(String, FunctionRef)> = Vec::new();
        let mut static_methods: Vec<(String, FunctionRef)> = Vec::new();
        proof {
            assert(members@.take(0) =~= Seq::<ClassMember>::empty());
        }
        let mut i: usize = 0;
        while i < members.len()
            invariant
                self.wf(),
                self.follows(*old(self)),
                self.environments == old(self).environments,
                self.environment == old(self).environment,
                self.budget == old(self).budget,
                self.output@ == old(self).output@,
                self.classes@ == old(self).classes@,
                self.class_objects@ == old(self).class_objects@,
                self.instances@ == old(self).instances@,
                i <= members@.len(),
                env == old(self).current(),
                f0 == old(self).function_count(),
                self.functions@.len() == f0 + i,
                forall|k: int| 0 <= k < old(self).functions@.len() ==> self.functions@[k] == old(self).functions@[k],
                forall|j: int| 0 <= j < i ==> member_made(*self, #[trigger] members@[j], (f0 + j) as nat, env),
                crate::interpreter::lox_class::members(instance_methods@) == method_table(members@.take(i as int), f0),
                crate::interpreter::lox_class::members(getters@) == getter_table(members@.take(i as int), f0),
                crate::interpreter::lox_class::members(static_methods@) == static_table(members@.take(i as int), f0),
            decreases members@.len() - i,
        {
            let ghost before_member = *self;
            let ghost pairs_methods = instance_methods@;
            let ghost pairs_getters = getters@;
            let ghost pairs_statics = static_methods@;
            proof {
                lemma_tables_step(members@, f0, i as int);
            }
            match &members[i] {
                ClassMember::Method { name: method_name, parameters, body } => {
                    let is_init = string_is(&method_name.lexeme, "init");
                    let function = LoxFunction::new(
                        Some(method_name.clone()),
                        Rc::clone(parameters),
                        Rc::clone(body),
                        self.environment,
                        is_init,
                    );
                    let f = self.push_function(function);
                    let entry = (method_name.lexeme.clone(), f);
                    instance_methods.push(entry);
                    proof {
                        lemma_members_push(pairs_methods, entry);
                        assert(member_made(*self, members@[i as int], (f0 + i) as nat, env));
                    }
                },
                ClassMember::StaticMethod { name: method_name, parameters, body } => {
                    let function = LoxFunction::new(
                        Some(method_name.clone()),
                        Rc::clone(parameters),
                        Rc::clone(body),
                        self.environment,
                        false,
                    );
                    let f = self.push_function(function);
                    let entry = (method_name.lexeme.clone(), f);
                    static_methods.push(entry);
                    proof {
                        lemma_members_push(pairs_statics, entry);
                        assert(member_made(*self, members@[i as int], (f0 + i) as nat, env));
                    }
                },
                ClassMember::Getter { name: method_name, body } => {
                    let function = LoxFunction::new(
                        Some(method_name.clone()),
                        Rc::new(Vec::new()),
                        Rc::clone(body),
                        self.environment,
                        false,
                    );
                    let f = self.push_function(function);
                    let entry = (method_name.lexeme.clone(), f);
                    getters.push(entry);
                    proof {
                        lemma_members_push(pairs_getters, entry);
                        assert(member_made(*self, members@[i as int], (f0 + i) as nat, env));
                    }
                },
            }
            proof {
                assert forall|j: int| 0 <= j < i + 1 implies member_made(*self, #[trigger] members@[j], (f0 + j) as nat, env) by {
                    if j < i {
                        assert(member_made(before_member, members@[j], (f0 + j) as nat, env));
                        assert(self.functions@[f0 + j] == before_member.functions@[f0 + j]);
                    }
                }
            }
            i = i + 1;
        }
        proof {
            assert(members@.take(i as int) =~= members@);
        }
        (instance_methods, getters, static_methods)
    }

    /// Makes class `name` (with the given superclass, methods and getters)
    /// and its metaclass (with the static methods), and a class object for
    /// the pair.
    fn make_class(
        &mut self,
        name: &String,
        superclass: Option<usize>,
        methods: Vec<(String, FunctionRef)>,
        getters: Vec<(String, FunctionRef)>,
        static_methods: Vec<(String, FunctionRef)>,
    ) -> (k: usize)
        requires
            old(self).wf(),
            superclass matches Some(j) ==> j < old(self).classes@.len(),
        ensures
            final(self).wf(),
            final(self).follows(*old(self)),
            final(self).environments == old(self).environments,
            final(self).environment == old(self).environment,
            final(self).budget == old(self).budget,
            final(self).output@ == old(self).output@,
            final(self).functions@ == old(self).functions@,
            final(self).instances@ == old(self).instances@,
            k == old(self).class_object_count(),
            final(self).class_object_count() == k + 1,
            forall|c: nat| c < k ==> final(self).instance_class_of(c) == old(self).instance_class_of(c),
            final(self).class_name(final(self).instance_class_of(k as nat) as nat) == name@,
            final(self).class_superclass(final(self).instance_class_of(k as nat) as nat) == superclass,
            final(self).class_methods(final(self).instance_class_of(k as nat) as nat) == crate::interpreter::lox_class::members(methods@),
            final(self).class_getters(final(self).instance_class_of(k as nat) as nat) == crate::interpreter::lox_class::members(getters@),
            final(self).class_name(final(self).metaclass_of(k as nat) as nat) == name@ + " metaclass"@,
            final(self).class_superclass(final(self).metaclass_of(k as nat) as nat) is None,
            final(self).class_methods(final(self).metaclass_of(k as nat) as nat) == crate::interpreter::lox_class::members(static_methods@),
            final(self).class_getters(final(self).metaclass_of(k as nat) as nat) == Map::<Seq<char>, FunctionRef>::empty(),
    {
        let instance_class = self.push_class(LoxClass::new(name.clone(), superclass, methods, getters));
        let no_getters: Vec<(String, FunctionRef)> = Vec::new();
        proof {
            assert(crate::interpreter::lox_class::members(no_getters@) =~= Map::<Seq<char>, FunctionRef>::empty());
        }
        let metaclass = self.push_class(LoxClass::new(metaclass_name(name), None, static_methods, no_getters));
        self.push_class_object(ClassObject::new(instance_class, metaclass))
    }

    fn execute_class<N: NumberOps>(
        &mut self,
        name: &Token,
        superclass: &Option<Expr>,
        members: &Vec<ClassMember>,
        numbers: &N,
    ) -> (r: ExecutionResult)
        requires
            old(self).wf(),
        ensures
            final(self).follows(*old(self)),
            r is Success || r is RuntimeError,
            old(self).current() == 0 && old(self).budget > 1 && r is Success && (*superclass matches None
                || *superclass matches Some(Expr::Variable { .. })) ==> final(self).scopes()[0].values[name.lexeme@]
                matches Some(Value::Class(_)),
            old(self).budget > 0 && (*superclass matches None) ==> r is Success,
            class_declared(numbers, *old(self), name.lexeme@, *superclass, members@, *final(self), r),
        decreases old(self).budget,
    {
        if self.budget == 0 {
            return ExecutionResult::RuntimeError(Self::budget_error());
        }
        self.budget = self.budget - 1;
        self.define_variable(name, None);
        let ghost s0 = *self;
        assert(name_declared(*old(self), name.lexeme@, s0));
        let ghost globals = self.scopes()[0].values;
        let ghost binds = old(self).current() == 0 && old(self).budget > 1 && (*superclass matches None
            || *superclass matches Some(Expr::Variable { .. }));
        assert(old(self).current() == 0 ==> globals.contains_key(name.lexeme@));
        let mut superclass_object: Option<usize> = None;
        let ghost mut checked: Result<Value, RuntimeError> = Ok(Value::Literal(Literal::Nil));
        match superclass {
            Some(super_expr) => {
                let ghost before_super = *self;
                let c = self.evaluate(super_expr, numbers);
                proof {
                    checked = c;
                }
                let super_value = match c {
                    Ok(value) => value,
                    Err(error) => {
                        assert(superclass_checked(*self, checked, name.lexeme@, members@, *self,
                            ExecutionResult::RuntimeError(error)));
                        return ExecutionResult::RuntimeError(error);
                    },
                };
                assert(binds ==> self.scopes() == before_super.scopes());
                match super_value {
                    Value::Class(c) => {
                        if c >= self.class_objects.len() {
                            let error = internal_error("Invalid class reference.");
                            assert(superclass_checked(*self, checked, name.lexeme@, members@, *self,
                                ExecutionResult::RuntimeError(error)));
                            return ExecutionResult::RuntimeError(error);
                        }
                        superclass_object = Some(c);
                    },
                    _ => {
                        let error_token = match super_expr {
                            Expr::Variable { name: super_name, .. } => super_name,
                            _ => name,
                        };
                        let error = error_at(error_token, "Superclass must be a class.");
                        assert(superclass_checked(*self, checked, name.lexeme@, members@, *self,
                            ExecutionResult::RuntimeError(error)));
                        return ExecutionResult::RuntimeError(error);
                    },
                }
            },
            None => {},
        }
        let ghost base = *self;
        let ghost f0 = base.function_count();
        let previous = self.environment;
        assert(binds ==> self.scopes()[0].values == globals);
        match superclass_object {
            Some(c) => {
                let super_environment = self.push_environment(Environment::from(self.environment));
                self.define_local_in(super_environment, Some(Value::Class(c)));
                self.environment = super_environment;
            },
            None => {},
        }
        let ghost env = self.environment as nat;
        assert(previous != 0 ==> self.scopes()[previous as int] == base.scopes()[previous as int]);
        assert(superclass_object is None ==> env == base.current());
        assert(superclass_object is Some ==> env == base.scopes().len());
        assert(previous == 0 ==> self.scopes()[0].values == base.scopes()[0].values);
        let ghost before_members = *self;
        let (instance_methods, getters, static_methods) = self.declare_members(members);
        let ghost after_members = *self;
        let superclass_class = match superclass_object {
            Some(c) => Some(self.class_objects[c].instance_class_ref()),
            None => None,
        };
        let ghost sc = match superclass_object {
            Some(c) => Some(c as nat),
            None => None,
        };
        let class_object = self.make_class(&name.lexeme, superclass_class, instance_methods, getters, static_methods);
        self.environment = previous;
        let ghost made = *self;
        proof {
            assert forall|j: int| 0 <= j < members@.len() implies member_made(made, #[trigger] members@[j], (f0 + j) as nat, env) by {
                assert(member_made(after_members, members@[j], (f0 + j) as nat, env));
            }
            let k = base.class_object_count();
            match superclass_object {
                Some(c) => {
                    assert(c < k);
                    assert(made.instance_class_of(c as nat) == after_members.instance_class_of(c as nat));
                },
                None => {},
            }
            assert(class_made(base, name.lexeme@, members@, sc, env, made));
        }
        proof {
            assert(made.scopes() == before_members.scopes());
            if superclass_object is Some && still_declared(base, name.lexeme@) {
                assert(previous != 0 ==> made.scopes()[previous as int].local_values == base.scopes()[previous as int].local_values);
            }
            if superclass_object is None {
                assert(base == s0);
                assert(before_members.scopes() == s0.scopes());
                assert(s0.current() != 0 ==> s0.scopes()[s0.current() as int].local_values.len() > 0);
            }
        }
        let r = match self.assign_variable(name, Value::Class(class_object)) {
            Ok(()) => ExecutionResult::Success,
            Err(error) => ExecutionResult::RuntimeError(error),
        };
        proof {
            assert(name_declared(*old(self), name.lexeme@, s0));
            if r is Success {
                assert forall|j: int| 0 <= j < members@.len() implies member_made(*self, #[trigger] members@[j], (f0 + j) as nat, env) by {
                    assert(member_made(made, members@[j], (f0 + j) as nat, env));
                }
                assert(class_made(base, name.lexeme@, members@, sc, env, *self));
                assert(class_bound(base, name.lexeme@, members@, sc, env, *self));
            }
            match superclass {
                Some(e) => {
                    assert(superclass_checked(base, checked, name.lexeme@, members@, *self, r));
                    assert(evaluated(numbers, s0, *e, base, checked));
                },
                None => {
                    assert(class_bound(s0, name.lexeme@, members@, None, s0.current(), *self));
                },
            }
        }
        r
    }

    /// Runs statements in `environment`, then returns to the current scope.
    fn execute_block<N: NumberOps>(&mut self, statements: &[Stmt], environment: EnvironmentRef, numbers: &N) -> (r:
        ExecutionResult)
        requires
            old(self).wf(),
            environment < old(self).environments@.len(),
        ensures
            final(self).follows(*old(self)),
            exists|trace: Seq<Interpreter>, results: Seq<ExecutionResult>|
                ran_block(numbers, *old(self), statements@, environment as nat, trace, results, *final(self), r),
        decreases old(self).budget,
    {
        let previous = self.environment;
        self.environment = environment;
        let ghost mut trace: Seq<Interpreter> = seq![*self];
        let ghost mut results: Seq<ExecutionResult> = Seq::empty();
        assert(*self == old(self).in_scope(environment as nat));
        let mut i: usize = 0;
        while i < statements.len()
            invariant
                self.wf(),
                self.budget <= old(self).budget,
                self.locals@ == old(self).locals@,
                self.output@.len() >= old(self).output@.len(),
                forall|k: int| 0 <= k < old(self).output@.len() ==> self.output@[k] == old(self).output@[k],
                self.environments@.len() >= old(self).environments@.len(),
                self.functions@.len() >= old(self).functions@.len(),
                self.classes@.len() >= old(self).classes@.len(),
                self.class_objects@.len() >= old(self).class_objects@.len(),
                self.instances@.len() >= old(self).instances@.len(),
                forall|k: int| 0 <= k < old(self).instances@.len() ==> (#[trigger] self.instances@[k]).klass() == old(self).instances@[k].klass(),
                previous == old(self).environment,
                previous < self.environments@.len(),
                self.environment == environment,
                trace.len() == i + 1,
                results.len() == i,
                i <= statements@.len(),
                trace[0] == old(self).in_scope(environment as nat),
                trace.last() == *self,
                forall|k: int|
                    0 <= k < results.len() ==> block_step(numbers, trace[k], statements@[k], trace[k + 1], #[trigger] results[k]),
                forall|k: int| 0 <= k < results.len() ==> #[trigger] results[k] is Success,
                forall|k: int| 0 <= k < trace.len() ==> (#[trigger] trace[k]).steps_left() <= old(self).steps_left(),
            decreases statements@.len() - i,
        {
            if self.budget == 0 {
                let error = Self::budget_error();
                proof {
                    trace = trace.push(*self);
                    results = results.push(ExecutionResult::RuntimeError(error));
                    assert(block_step(numbers, trace[i as int], statements@[i as int], trace[i + 1], results[i as int]));
                }
                self.environment = previous;
                proof {
                    assert(ran_block(numbers, *old(self), statements@, environment as nat, trace, results, *self,
                        ExecutionResult::RuntimeError(error)));
                }
                return ExecutionResult::RuntimeError(error);
            }
            let ghost st = *self;
            self.budget = self.budget - 1;
            assert(*self == st.spent());
            let result = self.execute(&statements[i], numbers);
            proof {
                trace = trace.push(*self);
                results = results.push(result);
                assert(block_step(numbers, trace[i as int], statements@[i as int], trace[i + 1], results[i as int]));
            }
            match result {
                ExecutionResult::Success => {},
                _ => {
                    self.environment = previous;
                    proof {
                        assert(ran_block(numbers, *old(self), statements@, environment as nat, trace, results, *self, result));
                    }
                    return result;
                },
            }
            i = i + 1;
        }
        self.environment = previous;
        proof {
            assert(ran_block(numbers, *old(self), statements@, environment as nat, trace, results, *self,
                ExecutionResult::Success));
        }
        ExecutionResult::Success
    }

    fn define_variable(&mut self, name: &Token, value: Option<Value>)
        requires
            old(self).wf(),
        ensures
            final(self).wf(),
            final(self).follows(*old(self)),
            final(self).same_callables(*old(self)),
            final(self).environment == old(self).environment,
            final(self).budget == old(self).budget,
            final(self).locals@ == old(self).locals@,
            final(self).output@ == old(self).output@,
            old(self).environment == 0 ==> final(self).scopes()[0].values == old(self).scopes()[0].values.insert(
                name.lexeme@,
                value,
            ),
            old(self).environment != 0 ==> final(self).scopes() == old(self).scopes().update(
                old(self).environment as int,
                crate::environment::EnvironmentView {
                    local_values: old(self).scopes()[old(self).environment as int].local_values.push(value),
                    ..old(self).scopes()[old(self).environment as int]
                },
            ),
    {
        if self.environment == 0 {
            self.define_named(0, name.lexeme.clone(), value);
        } else {
            self.define_local_in(self.environment, value);
        }
    }

    fn assign_variable(&mut self, name: &Token, value: Value) -> (r: Result<(), RuntimeError>)
        requires
            old(self).wf(),
        ensures
            final(self).wf(),
            final(self).follows(*old(self)),
            final(self).environment == old(self).environment,
            final(self).budget == old(self).budget,
            final(self).locals@ == old(self).locals@,
            final(self).output@ == old(self).output@,
            final(self).same_callables(*old(self)),
            final(self).same_instances(*old(self)),
            old(self).environment == 0 && old(self).scopes()[0].values.contains_key(name.lexeme@) ==> r is Ok,
            old(self).environment == 0 && r is Ok ==> final(self).scopes()[0].values == old(self).scopes()[0].values.insert(name.lexeme@, Some(value)),
            old(self).environment != 0 && r is Ok ==> final(self).scopes()[old(self).environment as int].local_values
                == old(self).scopes()[old(self).environment as int].local_values.update(
                old(self).scopes()[old(self).environment as int].local_values.len() - 1,
                Some(value),
            ),            old(self).environment != 0 && old(self).scopes()[old(self).environment as int].local_values.len() > 0
                ==> r is Ok,
    {
        if self.environment == 0 {
            let r = Environment::assign(&mut self.environments, 0, name, value);
            proof {
                assert forall|i: int| 0 <= i < self.functions@.len() implies (#[trigger] self.functions@[i]).closure()
                    < self.environments@.len() by {}
            }
            r
        } else {
            if self.environments[self.environment].local_count() == 0 {
                return Err(internal_error("No local slot to assign."));
            }
            assert(self.scopes()[self.environment as int] == self.environments@[self.environment as int]@);
            self.assign_last_local_in(self.environment, Some(value));
            Ok(())
        }
    }

    // ------------------------------------------------------------------
    // Expressions.

    #[verifier::spinoff_prover]
    #[verifier::rlimit(40)]
    fn evaluate<N: NumberOps>(&mut self, expression: &Expr, numbers: &N) -> (r: Result<Value, RuntimeError>)
        requires
            old(self).wf(),
        ensures
            final(self).follows(*old(self)),
            old(self).budget > 0 ==> evaluation_outcome(numbers, *old(self), *expression, *final(self), r),
            r matches Ok(v) ==> result_kind(*expression, v),
            old(self).budget >= expr_size(*expression) ==> match pure_value(old(self).context(), *expression) {
                Some(outcome) => {
                    &&& has_outcome(r, outcome)
                    &&& final(self).context() == old(self).context()
                    &&& final(self).printed() == old(self).printed()
                    &&& final(self).same_instances(*old(self))
                    &&& final(self).same_callables(*old(self))
                    &&& final(self).budget + expr_size(*expression) >= old(self).budget
                },
                None => true,
            },
        decreases old(self).budget,
    {
        if self.budget == 0 {
            return Err(Self::budget_error());
        }
        self.budget = self.budget - 1;
        match expression {
            Expr::Literal { value } => Ok(Value::Literal(value.clone())),
            Expr::Grouping { expression } => self.evaluate(expression, numbers),
            Expr::Variable { id, name } => {
                assert(self.variable_value(*id, name.lexeme@) == old(self).variable_value(*id, name.lexeme@));
                self.look_up_variable(*id, name)
            },
            Expr::This { id, keyword } => {
                assert(self.variable_value(*id, keyword.lexeme@) == old(self).variable_value(*id, keyword.lexeme@));
                self.look_up_variable(*id, keyword)
            },
            Expr::Assign { id, name, value } => {
                let c = self.evaluate(value, numbers);
                let ghost cg = c;
                let ghost mid = *self;
                let value = match c {
                    Ok(v) => v,
                    Err(error) => {
                        proof {
                            assert(global_assigned(mid, cg, name.lexeme@, mid, Err(error)));
                        }
                        return Err(error);
                    },
                };
                match self.locals.get(id) {
                    Some(resolution) => {
                        let distance = resolution.distance;
                        let slot = resolution.slot;
                        if !self.resolution_valid(distance, slot) {
                            return Err(internal_error("Resolver produced an invalid local slot."));
                        }
                        let ghost before = self.scopes();
                        Environment::assign_at(&mut self.environments, self.environment, distance, slot, value.clone());
                        proof {
                            assert forall|i: int| 0 <= i < self.functions@.len() implies (#[trigger] self.functions@[i]).closure()
                                < self.environments@.len() by {}
                            law_read_after_set_local(before, self.current(), distance as nat, slot as nat, Some(value));
                            lemma_ancestor_in_arena(before, self.current(), distance as nat);
                            assert(self.variable_value(*id, name.lexeme@) == Some(value));
                            assert(slot_assigned(mid, cg, old(self).resolutions()[*id], *self, Ok(value)));
                        }
                    },
                    None => {
                        let ghost before = self.scopes();
                        let assigned = Environment::assign(&mut self.environments, 0, name, value.clone());
                        if let Err(error) = assigned {
                            proof {
                                assert(global_assigned(mid, cg, name.lexeme@, *self, Err(error)));
                            }
                            return Err(error);
                        }
                        proof {
                            assert(global_assigned(mid, cg, name.lexeme@, *self, Ok(value)));
                            assert forall|i: int| 0 <= i < self.functions@.len() implies (#[trigger] self.functions@[i]).closure()
                                < self.environments@.len() by {}
                            match lookup(before, 0, name.lexeme@) {
                                Some((e, _)) => law_lookup_after_assign(before, 0, name.lexeme@, e, Some(value)),
                                None => {},
                            }
                            assert(self.variable_value(*id, name.lexeme@) == Some(value));
                        }
                    },
                }
                Ok(value)
            },
            Expr::Unary { operator, right } => {
                let c = self.evaluate(right, numbers);
                let ghost cg = c;
                let ghost mid = *self;
                let right = match c {
                    Ok(value) => value,
                    Err(error) => {
                        proof {
                            assert(operand_end(mid, cg, mid, Err(error)));
                        }
                        return Err(error);
                    },
                };
                let r = if operator.token_type == TokenType::Minus {
                    match right {
                        Value::Literal(Literal::Number(n)) => Ok(Value::Literal(Literal::Number(numbers.negate(n)))),
                        _ => Err(error_at(operator, "Operand must be a number.")),
                    }
                } else if operator.token_type == TokenType::Bang {
                    Ok(Value::Literal(Literal::Boolean(!Self::is_truthy(&right))))
                } else {
                    Err(error_at(operator, "Invalid unary operator."))
                };
                proof {
                    assert(operand_end(mid, cg, *self, r));
                }
                r
            },
            Expr::Binary { left, operator, right } => {
                let l = self.evaluate(left, numbers);
                let ghost lg = l;
                let ghost mid = *self;
                let left = match l {
                    Ok(value) => value,
                    Err(error) => {
                        proof {
                            assert(left_end(mid, lg, mid, Err(error)));
                        }
                        return Err(error);
                    },
                };
                let rr = self.evaluate(right, numbers);
                let ghost rg = rr;
                let ghost mid2 = *self;
                let right = match rr {
                    Ok(value) => value,
                    Err(error) => {
                        proof {
                            assert(left_end(mid, lg, mid2, Err(error)));
                            assert(binary_end(numbers, *operator, left, mid2, rg, mid2, Err(error)));
                        }
                        return Err(error);
                    },
                };
                let r = if !binary_operator(operator.token_type) {
                    Err(error_at(operator, "Invalid binary operator."))
                } else {
                    self.evaluate_binary(&left, operator, &right, numbers)
                };
                proof {
                    assert(left_end(mid, lg, *self, r));
                    assert(binary_end(numbers, *operator, left, mid2, rg, *self, r));
                }
                r
            },
            Expr::Logical { left, operator, right } => {
                let ghost start = *self;
                let left_result = self.evaluate(left, numbers);
                let ghost mid = *self;
                proof {
                    assert(start == old(self).spent());
                }
                let left_value = match left_result {
                    Ok(value) => value,
                    Err(error) => {
                        proof {
                            lemma_logical_outcome(numbers, *old(self), *expression, mid, left_result, mid, left_result);
                        }
                        return Err(error);
                    },
                };
                let decided = if operator.token_type == TokenType::Or {
                    Self::is_truthy(&left_value)
                } else {
                    !Self::is_truthy(&left_value)
                };
                if decided {
                    proof {
                        lemma_logical_outcome(numbers, *old(self), *expression, mid, left_result, mid, left_result);
                    }
                    return Ok(left_value);
                }
                let r = self.evaluate(right, numbers);
                proof {
                    lemma_logical_outcome(numbers, *old(self), *expression, mid, left_result, *self, r);
                }
                r
            },
            Expr::Call { callee, paren, arguments } => {
                let c = self.evaluate(callee, numbers);
                let ghost cg = c;
                let ghost mid = *self;
                let callee_value = match c {
                    Ok(v) => v,
                    Err(error) => {
                        proof {
                            assert(left_end(mid, cg, mid, Err(error)));
                        }
                        return Err(error);
                    },
                };
                let args = self.evaluate_arguments(arguments, numbers);
                let values = match args {
                    Ok(values) => values,
                    Err(error) => {
                        proof {
                            lemma_call_args_failed(numbers, mid, callee_value, arguments@, *paren, *self, Err(error));
                            assert(left_end(mid, cg, *self, Err(error)));
                        }
                        return Err(error);
                    },
                };
                let ghost mid2 = *self;
                let ghost vals = values@;
                let r = self.call_value(callee_value, values, paren, numbers);
                proof {
                    lemma_call_made(numbers, mid, mid2, callee_value, arguments@, vals, *paren, *self, r);
                    assert(left_end(mid, cg, *self, r));
                }
                r
            },
            Expr::Get { object: object_expr, name } => {
                let c = self.evaluate(object_expr, numbers);
                let ghost mid = *self;
                let ghost cg = c;
                let object = match c {
                    Ok(v) => v,
                    Err(error) => {
                        proof {
                            assert(left_end(mid, cg, *self, Err(error)));
                        }
                        return Err(error);
                    },
                };
                let r = match object {
                    Value::Class(c) => {
                        if c >= self.class_objects.len() {
                            let error = internal_error("Invalid class reference.");
                            proof {
                                assert(get_after_object(numbers, mid, object, *name, *self, Err(error)));
                                assert(left_end(mid, cg, *self, Err(error)));
                            }
                            return Err(error);
                        }
                        match self.class_objects[c].find_static(&self.classes, &name.lexeme) {
                            Some(method) => Ok(Value::Callable(Callable::Function(method))),
                            None => Err(undefined_property(name)),
                        }
                    },
                    Value::Instance(instance) => self.get_property(instance, name, numbers),
                    _ => Err(error_at(name, "Only instances have properties.")),
                };
                proof {
                    assert(get_after_object(numbers, mid, object, *name, *self, r));
                    assert(left_end(mid, cg, *self, r));
                }
                r
            },
            Expr::Super { id, keyword, method } => {
                let ghost s = *self;
                let resolution = match self.locals.get(id) {
                    Some(resolution) => *resolution,
                    None => return Err(internal_error("Super expression must be resolved.")),
                };
                if resolution.distance == 0 || !self.resolution_valid(resolution.distance, resolution.slot)
                    || !self.resolution_valid(resolution.distance - 1, 0) {
                    return Err(internal_error("Resolver produced an invalid local slot."));
                }
                let super_value = Environment::get_at(
                    &self.environments,
                    self.environment,
                    resolution.distance,
                    resolution.slot,
                    keyword,
                )?;
                let this_value = Environment::get_at(
                    &self.environments,
                    self.environment,
                    resolution.distance - 1,
                    0,
                    keyword,
                )?;
                proof {
                    assert(slot_read(s.context(), resolution.distance as nat, resolution.slot as nat) == Some(super_value));
                    assert(slot_read(s.context(), (resolution.distance - 1) as nat, 0) == Some(this_value));
                }
                let superclass = match super_value {
                    Value::Class(c) => c,
                    _ => return Err(error_at(keyword, "Superclass must be a class.")),
                };
                let instance = match this_value {
                    Value::Instance(instance) => instance,
                    _ => return Err(error_at(keyword, "Super expression requires a bound instance.")),
                };
                if superclass >= self.class_objects.len() {
                    return Err(internal_error("Invalid class reference."));
                }
                let class = self.class_objects[superclass].instance_class_ref();
                match self.find_method(class, &method.lexeme) {
                    Some(method_fn) => match self.bind_method(method_fn, instance) {
                        Some(bound) => Ok(Value::Callable(Callable::Function(bound))),
                        None => Err(internal_error("Invalid function reference.")),
                    },
                    None => Err(undefined_property(method)),
                }
            },
            Expr::SetProperty { object: object_expr, name, value: value_expr } => {
                let c = self.evaluate(object_expr, numbers);
                let ghost mid = *self;
                let ghost cg = c;
                let object = match c {
                    Ok(v) => v,
                    Err(error) => {
                        proof {
                            assert(left_end(mid, cg, *self, Err(error)));
                        }
                        return Err(error);
                    },
                };
                let instance = match object {
                    Value::Instance(instance) => instance,
                    _ => {
                        let error = error_at(name, "Only instances have fields.");
                        proof {
                            assert(left_end(mid, cg, *self, Err(error)));
                            assert(set_after_object(numbers, mid, object, *name, **value_expr, *self, Err(error)));
                        }
                        return Err(error);
                    },
                };
                let c2 = self.evaluate(value_expr, numbers);
                let ghost mid2 = *self;
                let ghost cg2 = c2;
                let value = match c2 {
                    Ok(v) => v,
                    Err(error) => {
                        proof {
                            assert(field_stored(mid2, cg2, instance as nat, name.lexeme@, *self, Err(error)));
                            assert(evaluated(numbers, mid, **value_expr, mid2, cg2));
                            assert(set_after_object(numbers, mid, object, *name, **value_expr, *self, Err(error)));
                            assert(left_end(mid, cg, *self, Err(error)));
                        }
                        return Err(error);
                    },
                };
                if instance >= self.instances.len() {
                    let error = internal_error("Invalid instance reference.");
                    proof {
                        assert(field_stored(mid2, cg2, instance as nat, name.lexeme@, *self, Err(error)));
                        assert(evaluated(numbers, mid, **value_expr, mid2, cg2));
                        assert(set_after_object(numbers, mid, object, *name, **value_expr, *self, Err(error)));
                        assert(left_end(mid, cg, *self, Err(error)));
                    }
                    return Err(error);
                }
                self.set_field(instance, name, value.clone());
                proof {
                    assert(self.scopes() == mid2.scopes());
                    assert(self.printed() == mid2.printed());
                    assert(field_stored(mid2, cg2, instance as nat, name.lexeme@, *self, Ok(value)));
                    assert(evaluated(numbers, mid, **value_expr, mid2, cg2));
                    assert(set_after_object(numbers, mid, object, *name, **value_expr, *self, Ok(value)));
                    assert(left_end(mid, cg, *self, Ok(value)));
                }
                Ok(value)
            },
            Expr::Function { params, body } => {
                let function = LoxFunction::new(None, Rc::clone(params), Rc::clone(body), self.environment, false);
                let f = self.push_function(function);
                Ok(Value::Callable(Callable::Function(f)))
            },
        }
    }

    /// Evaluates call arguments from left to right.
    fn evaluate_arguments<N: NumberOps>(&mut self, arguments: &Vec<Expr>, numbers: &N) -> (r: Result<Vec<Value>, RuntimeError>)
        requires
            old(self).wf(),
        ensures
            final(self).follows(*old(self)),
            r matches Ok(values) ==> values@.len() == arguments@.len(),
            old(self).budget == 0 ==> (r matches Err(e) && e.message@ == "Execution step limit reached."@)
                && *final(self) == *old(self),
            old(self).budget > 0 ==> exists|trace: Seq<Interpreter>, results: Seq<Result<Value, RuntimeError>>|
                #![trigger args_evaluated_to(numbers, old(self).spent(), arguments@, trace, results, *final(self))]
                {
                    &&& args_evaluated_to(numbers, old(self).spent(), arguments@, trace, results, *final(self))
                    &&& match r {
                        Ok(values) => !args_failed(results) && values@ == ok_values(results),
                        Err(e) => args_failed(results) && results.last() == Err::<Value, RuntimeError>(e),
                    }
                },
            old(self).budget > args_size(arguments@) ==> match pure_args(old(self).context(), arguments@) {
                Some(outcome) => {
                    &&& match outcome {
                        Ok(vs) => r matches Ok(values) && values@ == vs,
                        Err(m) => r matches Err(e) && e.message@ == m,
                    }
                    &&& final(self).context() == old(self).context()
                    &&& final(self).printed() == old(self).printed()
                    &&& final(self).same_instances(*old(self))
                    &&& final(self).same_callables(*old(self))
                    &&& final(self).budget + 1 + args_size(arguments@) >= old(self).budget
                },
                None => true,
            },
        decreases old(self).budget,
    {
        if self.budget == 0 {
            return Err(Self::budget_error());
        }
        self.budget = self.budget - 1;
        let ghost start = old(self).context();
        let ghost first = *self;
        let ghost mut trace: Seq<Interpreter> = seq![*self];
        let ghost mut results: Seq<Result<Value, RuntimeError>> = Seq::empty();
        let mut values: Vec<Value> = Vec::new();
        let mut i: usize = 0;
        proof {
            assert(arguments@.take(0) =~= Seq::<Expr>::empty());
            assert(values@ =~= ok_values(results));
        }
        while i < arguments.len()
            invariant
                first == old(self).spent(),
                trace.len() == i + 1,
                results.len() == i,
                trace[0] == first,
                trace.last() == *self,
                self.steps_left() <= first.steps_left(),
                forall|k: int| 0 <= k < trace.len() ==> (#[trigger] trace[k]).steps_left() <= first.steps_left(),
                forall|k: int|
                    0 <= k < results.len() ==> evaluated(
                        numbers,
                        trace[k],
                        arguments@[k],
                        trace[k + 1],
                        #[trigger] results[k],
                    ),
                forall|k: int| 0 <= k < results.len() ==> #[trigger] results[k] is Ok,
                values@ == ok_values(results),
                self.follows(*old(self)),
                self.budget < old(self).budget,
                values@.len() == i,
                i <= arguments@.len(),
                start == old(self).context(),
                old(self).budget > args_size(arguments@) && pure_args(start, arguments@.take(i as int)) is Some ==> {
                    &&& pure_args(start, arguments@.take(i as int)) == Some(Ok::<Seq<Value>, Seq<char>>(values@))
                    &&& self.context() == start
                    &&& self.printed() == old(self).printed()
                    &&& self.same_instances(*old(self))
                    &&& self.same_callables(*old(self))
                    &&& self.budget + 1 + args_size(arguments@.take(i as int)) >= old(self).budget
                },
            decreases arguments@.len() - i,
        {
            proof {
                lemma_pure_args_step(start, arguments@, i as int);
                lemma_pure_args_prefix(start, arguments@, i as int);
                lemma_pure_args_prefix(start, arguments@, i + 1);
            }
            let c = self.evaluate(&arguments[i], numbers);
            proof {
                trace = trace.push(*self);
                results = results.push(c);
                assert(trace[i as int] == trace[trace.len() - 2]);
            }
            let v = match c {
                Ok(v) => v,
                Err(error) => {
                    proof {
                        assert(args_evaluated(numbers, first, arguments@, trace, results));
                        assert(args_evaluated_to(numbers, first, arguments@, trace, results, *self));
                    }
                    return Err(error);
                },
            };
            values.push(v);
            proof {
                assert(values@ =~= ok_values(results));
            }
            i = i + 1;
        }
        proof {
            assert(arguments@.take(i as int) =~= arguments@);
            assert(args_evaluated(numbers, first, arguments@, trace, results));
            assert(args_evaluated_to(numbers, first, arguments@, trace, results, *self));
        }
        Ok(values)
    }

    /// Whether slot `slot` of the scope `distance` steps out exists.
    fn resolution_valid(&self, distance: usize, slot: usize) -> (r: bool)
        requires
            self.wf(),
        ensures
            r <==> distance <= depth(self.scopes(), self.environment as nat) && slot < self.scopes()[ancestor_of(
                self.scopes(),
                self.environment as nat,
                distance as nat,
            ) as int].local_values.len(),
    {
        if !Environment::reaches(&self.environments, self.environment, distance) {
            return false;
        }
        let a = Environment::ancestor(&self.environments, self.environment, distance);
        assert(self.scopes()[a as int] == self.environments@[a as int]@);
        slot < self.environments[a].local_count()
    }

    fn look_up_variable(&self, id: ExprId, name: &Token) -> (r: Result<Value, RuntimeError>)
        requires
            self.wf(),
        ensures
            match self.variable_value(id, name.lexeme@) {
                Some(v) => r == Ok::<Value, RuntimeError>(v),
                None => r is Err,
            },
            !self.resolutions().contains_key(id) && lookup(self.scopes(), 0, name.lexeme@) is None ==> (r matches Err(e)
                && e.message@ == undefined_message(name.lexeme@)),
    {
        match self.locals.get(&id) {
            Some(resolution) => {
                if !self.resolution_valid(resolution.distance, resolution.slot) {
                    return Err(internal_error("Resolver produced an invalid local slot."));
                }
                Environment::get_at(&self.environments, self.environment, resolution.distance, resolution.slot, name)
            },
            None => Environment::get(&self.environments, 0, name),
        }
    }

    /// Calls a value with evaluated arguments.
    fn call_value<N: NumberOps>(&mut self, callee: Value, arguments: Vec<Value>, paren: &Token, numbers: &N) -> (r:
        Result<Value, RuntimeError>)
        requires
            old(self).wf(),
        ensures
            final(self).follows(*old(self)),
            old(self).budget > 0 && !(callee is Callable || callee is Class) ==> {
                &&& r matches Err(e) && e.message@ == "Can only call functions and classes."@
                &&& final(self).context() == old(self).context()
                &&& final(self).printed() == old(self).printed()
                &&& final(self).same_instances(*old(self))
                &&& final(self).same_callables(*old(self))
                &&& final(self).budget + 1 >= old(self).budget
            },
            old(self).budget > 0 && callee == Value::Callable(Callable::Clock) && arguments@.len() == 0 ==> {
                &&& r matches Ok(Value::Literal(Literal::Number(_)))
                &&& final(self).context() == old(self).context()
                &&& final(self).printed() == old(self).printed()
                &&& final(self).same_instances(*old(self))
                &&& final(self).same_callables(*old(self))
            },
            old(self).budget > 0 && callee == Value::Callable(Callable::Clock) && arguments@.len() != 0 ==> {
                &&& r matches Err(e) && e.message@ == arity_message(0, arguments@.len())
                &&& final(self).context() == old(self).context()
                &&& final(self).printed() == old(self).printed()
                &&& final(self).same_instances(*old(self))
                &&& final(self).same_callables(*old(self))
                &&& final(self).budget + 1 >= old(self).budget
            },
            old(self).budget > 0 ==> match callee {
                Value::Callable(Callable::Function(f)) => f < old(self).function_count() && arguments@.len()
                    != old(self).function_arity(f as nat) ==> (r matches Err(e) && e.message@ == arity_message(
                    old(self).function_arity(f as nat),
                    arguments@.len(),
                )),
                Value::Class(c) => c < old(self).class_object_count() && arguments@.len() != old(
                    self,
                ).class_object_arity(c as nat) ==> (r matches Err(e) && e.message@ == arity_message(
                    old(self).class_object_arity(c as nat),
                    arguments@.len(),
                )),
                _ => true,
            },
            call_gives(numbers, *old(self), callee, arguments@, *paren, *final(self), r),
        decreases old(self).budget,
    {
        if self.budget == 0 {
            return Err(Self::budget_error());
        }
        self.budget = self.budget - 1;
        match callee {
            Value::Callable(Callable::Function(f)) => {
                if f >= self.functions.len() {
                    return Err(internal_error("Invalid function reference."));
                }
                let arity = self.functions[f].arity();
                if arguments.len() != arity {
                    return Err(arity_error(paren, arity, arguments.len()));
                }
                self.call_function(f, arguments, numbers)
            },
            Value::Callable(Callable::Clock) => {
                if arguments.len() != 0 {
                    return Err(arity_error(paren, 0, arguments.len()));
                }
                Ok(Value::Literal(Literal::Number(numbers.clock())))
            },
            Value::Class(c) => {
                if c >= self.class_objects.len() {
                    return Err(internal_error("Invalid class reference."));
                }
                let arity = self.class_arity(c);
                if arguments.len() != arity {
                    return Err(arity_error(paren, arity, arguments.len()));
                }
                let class = self.class_objects[c].instance_class_ref();
                self.instantiate(class, arguments, numbers)
            },
            _ => Err(error_at(paren, "Can only call functions and classes.")),
        }
    }

    /// Creates an instance of class `class` and runs its initializer, if any.
    pub(crate) fn instantiate<N: NumberOps>(&mut self, class: usize, arguments: Vec<Value>, numbers: &N) -> (r: Result<Value, RuntimeError>)
        requires
            old(self).wf(),
            class < old(self).class_count(),
        ensures
            final(self).follows(*old(self)),
            r matches Ok(v) ==> v == Value::Instance(old(self).instance_count() as usize)
                && final(self).class_of_instance(old(self).instance_count()) == class,
            old(self).steps_left() == 0 ==> (r matches Err(e) && e.message@ == "Execution step limit reached."@),
            old(self).steps_left() > 0 && old(self).method_of(class as nat, "init"@) is None ==> {
                &&& r == Ok::<Value, RuntimeError>(Value::Instance(old(self).instance_count() as usize))
                &&& final(self).instance_count() == old(self).instance_count() + 1
                &&& final(self).class_of_instance(old(self).instance_count()) == class
                &&& final(self).fields_of_instance(old(self).instance_count()) == Map::<Seq<char>, Value>::empty()
            },
            old(self).steps_left() > 0 ==> match old(self).method_of(class as nat, "init"@) {
                Some(m) => m < old(self).function_count() ==> initialized(
                    numbers,
                    *old(self),
                    class as nat,
                    m as nat,
                    arguments@,
                    *final(self),
                    r,
                ),
                None => true,
            },
            instantiated(numbers, *old(self), class as nat, arguments@, *final(self), r),
        decreases old(self).steps_left(),
    {
        if self.budget == 0 {
            return Err(Self::budget_error());
        }
        self.budget = self.budget - 1;
        let instance = self.push_instance(LoxInstance::new(class));
        let init = owned("init");
        match self.find_method(class, &init) {
            Some(initializer) => match self.bind_method(initializer, instance) {
                Some(bound) => {
                    assert(self.instances@[instance as int].klass() == class);
                    let ghost bound_state = *self;
                    proof {
                        assert(init_bound(*old(self), class as nat, initializer as nat, bound_state, bound as nat));
                    }
                    let c = self.call_function(bound, arguments, numbers);
                    proof {
                        assert(init_bound(*old(self), class as nat, initializer as nat, bound_state, bound as nat));
                    }
                    match c {
                        Err(error) => {
                            proof {
                                assert(init_result(c, old(self).instance_count(), Err(error)));
                            }
                            return Err(error);
                        },
                        Ok(_) => {
                            proof {
                                assert(init_result(c, old(self).instance_count(), Ok(Value::Instance(instance))));
                            }
                        },
                    }
                    assert(self.instances@[instance as int].klass() == class);
                },
                None => return Err(internal_error("Invalid function reference.")),
            },
            None => {},
        }
        Ok(Value::Instance(instance))
    }

    /// Runs function `f` with the given arguments in a new scope inside its closure.
    fn call_function<N: NumberOps>(&mut self, f: FunctionRef, arguments: Vec<Value>, numbers: &N) -> (r: Result<
        Value,
        RuntimeError,
    >)
        requires
            old(self).wf(),
            f < old(self).functions@.len(),
        ensures
            final(self).follows(*old(self)),
            old(self).steps_left() == 0 ==> (r matches Err(e) && e.message@ == "Execution step limit reached."@),
            old(self).steps_left() > 0 ==> call_ran(numbers, *old(self), f as nat, arguments@, *final(self), r),
        decreases old(self).budget,
    {
        if self.budget == 0 {
            return Err(Self::budget_error());
        }
        self.budget = self.budget - 1;
        let closure = self.functions[f].closure_ref();
        let is_initializer = self.functions[f].initializer();
        let body = self.functions[f].body();
        let environment = self.push_environment(Environment::from(closure));
        let ghost base = old(self).scopes();
        proof {
            let e = self.scopes().last();
            assert(e.local_values =~= Seq::<Option<Value>>::empty());
            assert(arguments@.take(0).map_values(|v: Value| Some(v)) =~= Seq::<Option<Value>>::empty());
            assert(e == call_frame(arguments@, 0, closure as nat));
            assert(self.scopes() =~= base.push(call_frame(arguments@, 0, closure as nat)));
        }
        let mut i: usize = 0;
        while i < arguments.len()
            invariant
                self.wf(),
                self.follows(*old(self)),
                self.budget < old(self).budget,
                self.output@ == old(self).output@,
                environment < self.environments@.len(),
                closure < self.environments@.len(),
                i <= arguments@.len(),
                environment == base.len(),
                self.scopes() == base.push(call_frame(arguments@, i as int, closure as nat)),
                self.budget + 1 == old(self).budget,
                self.same_instances(*old(self)),
                self.same_callables(*old(self)),
                base == old(self).scopes(),
                closure == old(self).function_closure(f as nat),
            decreases arguments@.len() - i,
        {
            self.define_local_in(environment, Some(arguments[i].clone()));
            proof {
                assert(arguments@.take(i + 1).map_values(|v: Value| Some(v)) =~= arguments@.take(i as int).map_values(
                    |v: Value| Some(v),
                ).push(Some(arguments@[i as int])));
                assert(self.scopes() =~= base.push(call_frame(arguments@, i + 1, closure as nat)));
            }
            i = i + 1;
        }
        assert(arguments@.take(i as int) =~= arguments@);
        let ghost entered = *self;
        assert(call_entry(*old(self), f as nat, arguments@, entered));
        let result = self.execute_block(body.as_slice(), environment, numbers);
        let ghost (trace, results) = choose|trace: Seq<Interpreter>, results: Seq<ExecutionResult>|
            ran_block(numbers, entered, body@, environment as nat, trace, results, *self, result);
        assert(ran_block(
            numbers,
            entered,
            old(self).function_body(f as nat),
            old(self).scopes().len(),
            trace,
            results,
            *self,
            result,
        ));
        let ghost outcome = call_outcome(*self, closure as nat, is_initializer, result);
        let value = match result {
            ExecutionResult::Success => Value::Literal(Literal::Nil),
            ExecutionResult::RuntimeError(error) => {
                assert(outcome == Err::<Value, RuntimeError>(error));
                return Err(error);
            },
            ExecutionResult::Break => Value::Literal(Literal::Nil),
            ExecutionResult::Return(value) => value,
        };
        if is_initializer {
            // An initializer always gives back the instance it initialized.
            assert(self.scopes()[closure as int] == self.environments@[closure as int]@);
            if self.environments[closure].local_count() > 0 {
                let this = self.environments[closure].local_value(0);
                assert(outcome == Ok::<Value, RuntimeError>(this));
                return Ok(this);
            }
        }
        assert(self.scopes()[closure as int] == self.environments@[closure as int]@);
        assert(outcome == Ok::<Value, RuntimeError>(value));
        Ok(value)
    }

    /// Reads property `name` of an instance: a field, else a getter (which
    /// is run), else a method (bound to the instance).
    fn get_property<N: NumberOps>(&mut self, instance: InstanceRef, name: &Token, numbers: &N) -> (r: Result<
        Value,
        RuntimeError,
    >)
        requires
            old(self).wf(),
        ensures
            final(self).follows(*old(self)),
            old(self).budget == 0 ==> (r matches Err(e) && e.message@ == "Execution step limit reached."@),
            old(self).budget > 0 && instance < old(self).instance_count() && old(self).fields_of_instance(
                instance as nat,
            ).contains_key(name.lexeme@) ==> r == Ok::<Value, RuntimeError>(
                old(self).fields_of_instance(instance as nat)[name.lexeme@],
            ),
            old(self).budget > 0 && instance < old(self).instance_count() && !old(self).fields_of_instance(
                instance as nat,
            ).contains_key(name.lexeme@) && old(self).getter_of(
                old(self).class_of_instance(instance as nat) as nat,
                name.lexeme@,
            ) is None && old(self).method_of(old(self).class_of_instance(instance as nat) as nat, name.lexeme@)
                is None ==> (r matches Err(e) && e.message@ == undefined_property_message(name.lexeme@)),
            old(self).budget > 0 && instance < old(self).instance_count() && !old(self).fields_of_instance(
                instance as nat,
            ).contains_key(name.lexeme@) ==> match old(self).getter_of(
                old(self).class_of_instance(instance as nat) as nat,
                name.lexeme@,
            ) {
                Some(g) => g < old(self).function_count() ==> getter_called(
                    numbers,
                    *old(self),
                    instance as nat,
                    g as nat,
                    *final(self),
                    r,
                ),
                None => match old(self).method_of(old(self).class_of_instance(instance as nat) as nat, name.lexeme@) {
                    Some(m) => m < old(self).function_count() ==> {
                        &&& r == Ok::<Value, RuntimeError>(
                            Value::Callable(Callable::Function(old(self).function_count() as usize)),
                        )
                        &&& method_bound(*old(self), instance as nat, m as nat, *final(self), old(self).function_count())
                    },
                    None => true,
                },
            },
        decreases old(self).budget,
    {
        if self.budget == 0 {
            return Err(Self::budget_error());
        }
        self.budget = self.budget - 1;
        if instance >= self.instances.len() {
            return Err(internal_error("Invalid instance reference."));
        }
        match self.instances[instance].get(name) {
            Ok(value) => return Ok(value),
            Err(_) => {},
        }
        let class = self.instances[instance].klass_ref();
        match self.find_getter(class, &name.lexeme) {
            Some(getter) => {
                return match self.bind_method(getter, instance) {
                    Some(bound) => {
                        let ghost bound_state = *self;
                        proof {
                            assert(method_bound(*old(self), instance as nat, getter as nat, bound_state, bound as nat));
                            assert(bound_state.steps_left() < old(self).steps_left());
                        }
                        let no_arguments: Vec<Value> = Vec::new();
                        proof {
                            assert(no_arguments@ =~= Seq::<Value>::empty());
                        }
                        self.call_function(bound, no_arguments, numbers)
                    },
                    None => Err(internal_error("Invalid function reference.")),
                };
            },
            None => {},
        }
        match self.find_method(class, &name.lexeme) {
            Some(method) => match self.bind_method(method, instance) {
                Some(bound) => Ok(Value::Callable(Callable::Function(bound))),
                None => Err(internal_error("Invalid function reference.")),
            },
            None => Err(undefined_property(name)),
        }
    }

    /// Applies a binary operator to evaluated operands.
    pub fn evaluate_binary<N: NumberOps>(&self, left: &Value, operator: &Token, right: &Value, numbers: &N) -> (r:
        Result<Value, RuntimeError>)
        requires
            is_binary_operator(operator.token_type),
        ensures
            r matches Ok(v) ==> binary_result_kind(operator.token_type, v),
            operator.token_type == TokenType::Slash && is_number(*left) && is_number(*right) ==> (r is Ok
                || (r matches Err(e) && e.message@ == "Division by zero."@)),
            (*left, *right) matches (Value::Literal(Literal::Number(a)), Value::Literal(Literal::Number(b))) ==> match number_outcome(
                numbers,
                operator.token_type,
                a,
                b,
            ) {
                Some(v) => r == Ok::<Value, RuntimeError>(v),
                None => r matches Err(e) && e.token == *operator && e.message@ == "Division by zero."@,
            },
            ({
                let op = operator.token_type;
                match operand_error(op, *left, *right) {
                    Some(message) => (op != TokenType::Slash || !is_number(*right)) ==> (r matches Err(e)
                        && e.token == *operator && e.message@ == message),
                    None => op != TokenType::Slash ==> r is Ok,
                }
            }),
            operator.token_type == TokenType::EqualEqual ==> (r matches Ok(Value::Literal(Literal::Boolean(b)))
                && (equality(*left, *right) matches Some(e) ==> b == e)),
            operator.token_type == TokenType::BangEqual ==> (r matches Ok(Value::Literal(Literal::Boolean(b)))
                && (equality(*left, *right) matches Some(e) ==> b == !e)),
            operator.token_type == TokenType::Plus ==> match (*left, *right) {
                (Value::Literal(Literal::String(a)), Value::Literal(Literal::String(b))) => r matches Ok(
                    Value::Literal(Literal::String(s)),
                ) && s@ == a@ + b@,
                (Value::Literal(Literal::Number(_)), Value::Literal(Literal::Number(_))) => r matches Ok(
                    Value::Literal(Literal::Number(_)),
                ),
                _ => true,
            },
            binary_gives(numbers, *self, *operator, *left, *right, r),
    {
        let op = operator.token_type;
        if op == TokenType::Minus {
            match (left, right) {
                (Value::Literal(Literal::Number(a)), Value::Literal(Literal::Number(b))) => Ok(
                    Value::Literal(Literal::Number(numbers.subtract(*a, *b))),
                ),
                _ => Err(error_at(operator, "Operands must be numbers.")),
            }
        } else if op == TokenType::Slash {
            match right {
                Value::Literal(Literal::Number(b)) => {
                    if is_zero_number(*b) {
                        return Err(error_at(operator, "Division by zero."));
                    }
                },
                _ => return Err(error_at(operator, "Operands must be numbers.")),
            }
            match (left, right) {
                (Value::Literal(Literal::Number(a)), Value::Literal(Literal::Number(b))) => Ok(
                    Value::Literal(Literal::Number(numbers.divide(*a, *b))),
                ),
                _ => Err(error_at(operator, "Operands must be numbers.")),
            }
        } else if op == TokenType::Star {
            match (left, right) {
                (Value::Literal(Literal::Number(a)), Value::Literal(Literal::Number(b))) => Ok(
                    Value::Literal(Literal::Number(numbers.multiply(*a, *b))),
                ),
                _ => Err(error_at(operator, "Operands must be numbers.")),
            }
        } else if op == TokenType::Plus {
            self.add(left, right, operator, numbers)
        } else if op == TokenType::Greater || op == TokenType::GreaterEqual || op == TokenType::Less || op
            == TokenType::LessEqual {
            match (left, right) {
                (Value::Literal(Literal::Number(a)), Value::Literal(Literal::Number(b))) => {
                    let result = if op == TokenType::Greater {
                        numbers.greater(*a, *b)
                    } else if op == TokenType::GreaterEqual {
                        numbers.greater_equal(*a, *b)
                    } else if op == TokenType::Less {
                        numbers.less(*a, *b)
                    } else {
                        numbers.less_equal(*a, *b)
                    };
                    Ok(Value::Literal(Literal::Boolean(result)))
                },
                _ => Err(error_at(operator, "Operands must be numbers.")),
            }
        } else if op == TokenType::EqualEqual {
            Ok(Value::Literal(Literal::Boolean(Self::is_equal(left, right, numbers))))
        } else {
            Ok(Value::Literal(Literal::Boolean(!Self::is_equal(left, right, numbers))))
        }
    }

    /// `+`: adds two numbers, or joins strings (showing a non-string operand as `stringify` does).
    fn add<N: NumberOps>(&self, left: &Value, right: &Value, operator: &Token, numbers: &N) -> (r: Result<
        Value,
        RuntimeError,
    >)
        ensures
            match operand_error(TokenType::Plus, *left, *right) {
                Some(message) => r matches Err(e) && e.token == *operator && e.message@ == message,
                None => r is Ok,
            },
            r matches Ok(v) ==> is_number(v) || is_string(v),
            match (*left, *right) {
                (Value::Literal(Literal::String(a)), Value::Literal(Literal::String(b))) => r matches Ok(
                    Value::Literal(Literal::String(s)),
                ) && s@ == a@ + b@,
                (Value::Literal(Literal::Number(a)), Value::Literal(Literal::Number(b))) => r == Ok::<
                    Value,
                    RuntimeError,
                >(Value::Literal(Literal::Number(numbers.add_spec(a, b)))),
                (Value::Literal(Literal::String(a)), Value::Literal(Literal::Number(b))) => r matches Ok(
                    Value::Literal(Literal::String(s)),
                ) && s@ == a@ + numbers.format_spec(b)@,
                (Value::Literal(Literal::Number(a)), Value::Literal(Literal::String(b))) => r matches Ok(
                    Value::Literal(Literal::String(s)),
                ) && s@ == numbers.format_spec(a)@ + b@,
                (Value::Literal(Literal::String(a)), _) => r matches Ok(Value::Literal(Literal::String(s)))
                    && s@.subrange(0, a@.len() as int) == a@,
                (_, Value::Literal(Literal::String(b))) => r matches Ok(Value::Literal(Literal::String(s)))
                    && s@.len() >= b@.len() && s@.subrange(s@.len() - b@.len(), s@.len() as int) == b@,
                _ => true,
            },
            is_string(*left) || is_string(*right) ==> (r matches Ok(Value::Literal(Literal::String(s))) && s@
                == display(numbers, *self, *left) + display(numbers, *self, *right)),
    {
        match (left, right) {
            (Value::Literal(Literal::Number(a)), Value::Literal(Literal::Number(b))) => Ok(
                Value::Literal(Literal::Number(numbers.add(*a, *b))),
            ),
            (Value::Literal(Literal::String(a)), Value::Literal(Literal::String(b))) => Ok(
                Value::Literal(Literal::String(concat(a, b))),
            ),
            (Value::Literal(Literal::String(a)), other) => {
                let text = self.stringify(other, numbers);
                let s = concat(a, &text);
                assert(s@.subrange(0, a@.len() as int) =~= a@);
                Ok(Value::Literal(Literal::String(s)))
            },
            (other, Value::Literal(Literal::String(b))) => {
                let text = self.stringify(other, numbers);
                let s = concat(&text, b);
                assert(s@.subrange(s@.len() - b@.len(), s@.len() as int) =~= b@);
                Ok(Value::Literal(Literal::String(s)))
            },
            _ => Err(error_at(operator, "Operands must be two numbers or at least one string.")),
        }
    }

    /// Whether a value counts as true: everything but `nil` and `false`.
    pub fn is_truthy(value: &Value) -> (r: bool)
        ensures
            r == truthy(*value),
    {
        match value {
            Value::Literal(Literal::Nil) => false,
            Value::Literal(Literal::Boolean(b)) => *b,
            _ => true,
        }
    }

    /// Lox `==`.
    pub fn is_equal<N: NumberOps>(left: &Value, right: &Value, numbers: &N) -> (r: bool)
        ensures
            equality(*left, *right) matches Some(e) ==> r == e,
            (*left, *right) matches (Value::Literal(Literal::Number(a)), Value::Literal(Literal::Number(b)))
                ==> r == numbers.equal_spec(a, b),
    {
        match (left, right) {
            (Value::Literal(Literal::Nil), Value::Literal(Literal::Nil)) => true,
            (Value::Literal(Literal::Nil), _) => false,
            (_, Value::Literal(Literal::Nil)) => false,
            (Value::Literal(Literal::Number(a)), Value::Literal(Literal::Number(b))) => {
                numbers.equal(*a, *b)
            },
            (Value::Literal(Literal::String(a)), Value::Literal(Literal::String(b))) => *a == *b,
            (Value::Literal(Literal::Boolean(a)), Value::Literal(Literal::Boolean(b))) => *a == *b,
            _ => false,
        }
    }

    /// How a value is shown by `print`.
    pub fn stringify<N: NumberOps>(&self, value: &Value, numbers: &N) -> (s: String)
        ensures
            s@ == display(numbers, *self, *value),
    {
        match value {
            Value::Literal(Literal::Number(n)) => numbers.format(*n),
            Value::Literal(Literal::String(t)) => t.clone(),
            Value::Literal(Literal::Boolean(b)) => if *b { owned("true") } else { owned("false") },
            Value::Literal(Literal::Nil) => owned("nil"),
            Value::Callable(Callable::Clock) => owned("<fn clock>"),
            Value::Callable(Callable::Function(f)) => {
                let mut s = owned("<fn ");
                if *f < self.functions.len() {
                    let n = self.functions[*f].name();
                    append_str(&mut s, n.as_str());
                }
                append_str(&mut s, ">");
                s
            },
            Value::Class(c) => {
                if *c < self.class_objects.len() && self.class_objects[*c].instance_class_ref() < self.classes.len() {
                    self.class_objects[*c].name(&self.classes)
                } else {
                    String::new()
                }
            },
            Value::Instance(i) => {
                let mut s = String::new();
                if *i < self.instances.len() && self.instances[*i].klass_ref() < self.classes.len() {
                    s = self.instances[*i].klass_name(&self.classes).clone();
                }
                append_str(&mut s, " instance");
                s
            },
        }
    }
}

fn binary_operator(t: TokenType) -> (r: bool)
    ensures
        r == is_binary_operator(t),
{
    t == TokenType::Minus || t == TokenType::Slash || t == TokenType::Star || t == TokenType::Plus || t
        == TokenType::Greater || t == TokenType::GreaterEqual || t == TokenType::Less || t
        == TokenType::LessEqual || t == TokenType::EqualEqual || t == TokenType::BangEqual
}

} // verus!

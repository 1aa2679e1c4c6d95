use std::rc::Rc;

use lib::interpreter::lox_class::{ClassObject, LoxClass};
use lib::interpreter::lox_function::LoxFunction;
use lib::interpreter::lox_instance::LoxInstance;
use lib::interpreter::{ExecutionResult, Interpreter};
use lib::lox::Lox;
use lib::numbers::{NumberOps, NumberText};
use lib::parser::Parser;
use lib::resolver::Resolver;
use lib::scanner::Scanner;
use lib::token::{Literal, Token, TokenType, Value};

/// IEEE doubles, as the host supplies them to the interpreter.
struct F64;

impl NumberOps for F64 {
    // Read by the verifier only: a literal's characters are not kept at run time.
    fn parse_spec(&self, _literal: NumberText) -> u64 {
        unreachable!()
    }
    fn add_spec(&self, a: u64, b: u64) -> u64 {
        self.add(a, b)
    }
    fn subtract_spec(&self, a: u64, b: u64) -> u64 {
        self.subtract(a, b)
    }
    fn multiply_spec(&self, a: u64, b: u64) -> u64 {
        self.multiply(a, b)
    }
    fn divide_spec(&self, a: u64, b: u64) -> u64 {
        self.divide(a, b)
    }
    fn negate_spec(&self, a: u64) -> u64 {
        self.negate(a)
    }
    fn equal_spec(&self, a: u64, b: u64) -> bool {
        self.equal(a, b)
    }
    fn greater_spec(&self, a: u64, b: u64) -> bool {
        self.greater(a, b)
    }
    fn greater_equal_spec(&self, a: u64, b: u64) -> bool {
        self.greater_equal(a, b)
    }
    fn less_spec(&self, a: u64, b: u64) -> bool {
        self.less(a, b)
    }
    fn less_equal_spec(&self, a: u64, b: u64) -> bool {
        self.less_equal(a, b)
    }
    fn format_spec(&self, a: u64) -> String {
        self.format(a)
    }
    fn parse(&self, literal: &str) -> u64 {
        literal.parse::<f64>().unwrap().to_bits()
    }
    fn add(&self, a: u64, b: u64) -> u64 {
        (f64::from_bits(a) + f64::from_bits(b)).to_bits()
    }
    fn subtract(&self, a: u64, b: u64) -> u64 {
        (f64::from_bits(a) - f64::from_bits(b)).to_bits()
    }
    fn multiply(&self, a: u64, b: u64) -> u64 {
        (f64::from_bits(a) * f64::from_bits(b)).to_bits()
    }
    fn divide(&self, a: u64, b: u64) -> u64 {
        (f64::from_bits(a) / f64::from_bits(b)).to_bits()
    }
    fn negate(&self, a: u64) -> u64 {
        (-f64::from_bits(a)).to_bits()
    }
    fn equal(&self, a: u64, b: u64) -> bool {
        f64::from_bits(a) == f64::from_bits(b)
    }
    fn greater(&self, a: u64, b: u64) -> bool {
        f64::from_bits(a) > f64::from_bits(b)
    }
    fn greater_equal(&self, a: u64, b: u64) -> bool {
        f64::from_bits(a) >= f64::from_bits(b)
    }
    fn less(&self, a: u64, b: u64) -> bool {
        f64::from_bits(a) < f64::from_bits(b)
    }
    fn less_equal(&self, a: u64, b: u64) -> bool {
        f64::from_bits(a) <= f64::from_bits(b)
    }
    fn format(&self, a: u64) -> String {
        let v = f64::from_bits(a);
        if v.fract() == 0.0 {
            format!("{:.0}", v)
        } else {
            v.to_string()
        }
    }
    fn clock(&self) -> u64 {
        0.0f64.to_bits()
    }
}

fn num(v: f64) -> u64 {
    v.to_bits()
}

/// An interpreter that has run `source`.
fn interpreter_after(source: &str) -> Interpreter {
    let mut lox = Lox::new();
    let mut scanner = Scanner::new(source);
    let tokens = scanner.scan_tokens(&F64);
    let statements = Parser::new(tokens, &mut lox).parse();
    let mut interpreter = Interpreter::new();
    {
        let mut resolver = Resolver::new(&mut interpreter);
        resolver.resolve(&statements);
        assert!(resolver.into_errors().is_empty());
    }
    assert!(matches!(interpreter.interpret(&statements, &F64), ExecutionResult::Success));
    interpreter
}

fn function(params: &[&str]) -> LoxFunction {
    let params: Vec<Token> = params
        .iter()
        .map(|p| Token::new(TokenType::Identifier, p.to_string(), None, 1))
        .collect();
    LoxFunction::new(None, Rc::new(params), Rc::new(Vec::new()), 0, false)
}

#[test]
fn class_arity_is_that_of_its_own_or_inherited_init() {
    let functions = vec![function(&["a", "b"]), function(&["x"])];
    let base = LoxClass::new("Base".to_string(), None, vec![("init".to_string(), 0)], Vec::new());
    let derived = LoxClass::new("Derived".to_string(), Some(0), Vec::new(), Vec::new());
    let own = LoxClass::new("Own".to_string(), Some(0), vec![("init".to_string(), 1)], Vec::new());
    let plain = LoxClass::new("Plain".to_string(), None, Vec::new(), Vec::new());
    let classes = vec![base];
    assert_eq!(derived.arity(&classes, &functions), 2);
    assert_eq!(own.arity(&classes, &functions), 1);
    assert_eq!(plain.arity(&classes, &functions), 0);
    assert_eq!(classes[0].name(), "Base");
    assert_eq!(classes[0].find_method(&"init".to_string()), Some(0));
    assert_eq!(classes[0].find_getter(&"init".to_string()), None);
}

#[test]
fn class_object_arity_and_static_methods() {
    let functions = vec![function(&["a"]), function(&[])];
    let classes = vec![
        LoxClass::new("Point".to_string(), None, vec![("init".to_string(), 0)], Vec::new()),
        LoxClass::new("Point metaclass".to_string(), None, vec![("origin".to_string(), 1)], Vec::new()),
    ];
    let object = ClassObject::new(0, 1);
    assert_eq!(object.arity(&classes, &functions), 1);
    assert_eq!(object.name(&classes), "Point");
    assert_eq!(object.find_static(&classes, &"origin".to_string()), Some(1));
    assert_eq!(object.find_static(&classes, &"init".to_string()), None);
}

#[test]
fn calling_a_class_object_makes_an_initialized_instance() {
    let mut interpreter = interpreter_after("class Point { init(x) { this.x = x; } }");
    let result = ClassObject::call(&mut interpreter, 0, vec![Value::Literal(Literal::Number(num(7.0)))], &F64);
    let instance = result.unwrap();
    assert_eq!(instance, Value::Instance(0));
    assert_eq!(interpreter.stringify(&instance, &F64), "Point instance");
}

#[test]
fn calling_a_missing_class_fails() {
    let mut interpreter = Interpreter::new();
    assert!(ClassObject::call(&mut interpreter, 3, Vec::new(), &F64).is_err());
    assert!(LoxClass::call(&mut interpreter, 0, Vec::new(), &F64).is_err());
}

#[test]
fn calling_a_class_makes_an_instance_of_it() {
    let mut interpreter = interpreter_after("class A {} class B < A {}");
    let instance = LoxClass::call(&mut interpreter, 2, Vec::new(), &F64).unwrap();
    assert_eq!(interpreter.stringify(&instance, &F64), "B instance");
}

#[test]
fn instances_know_their_class_name_and_fields() {
    let classes = vec![LoxClass::new("Cake".to_string(), None, Vec::new(), Vec::new())];
    let mut cake = LoxInstance::new(0);
    assert_eq!(cake.klass_name(&classes), "Cake");
    let flavor = Token::new(TokenType::Identifier, "flavor".to_string(), None, 1);
    assert_eq!(cake.get(&flavor).unwrap_err().message, "Undefined property 'flavor'.");
    cake.set(&flavor, Value::Literal(Literal::String("lemon".to_string())));
    assert_eq!(cake.get(&flavor).unwrap(), Value::Literal(Literal::String("lemon".to_string())));
}

#[test]
fn setting_a_field_overwrites_it_and_leaves_the_others() {
    let mut cake = LoxInstance::new(0);
    let flavor = Token::new(TokenType::Identifier, "flavor".to_string(), None, 1);
    let layers = Token::new(TokenType::Identifier, "layers".to_string(), None, 1);
    cake.set(&flavor, Value::Literal(Literal::String("lemon".to_string())));
    cake.set(&layers, Value::Literal(Literal::Number(num(2.0))));
    cake.set(&flavor, Value::Literal(Literal::String("lime".to_string())));
    assert_eq!(cake.get(&flavor).unwrap(), Value::Literal(Literal::String("lime".to_string())));
    assert_eq!(cake.get(&layers).unwrap(), Value::Literal(Literal::Number(num(2.0))));
}

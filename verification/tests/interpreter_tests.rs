use lib::expr::Expr;
use lib::interpreter::{ExecutionResult, Interpreter, RuntimeError};
use lib::lox::Lox;
use lib::numbers::{NumberOps, NumberText};
use lib::parser::Parser;
use lib::resolver::Resolver;
use lib::scanner::Scanner;
use lib::stmt::Stmt;
use lib::token::{Literal, Token, TokenType, Value};

/// IEEE doubles, as the host supplies them to the interpreter.
struct F64;

impl NumberOps for F64 {
    // Read by the verifier only: a literal's characters are not kept at run time.
    fn parse_spec(&self, _literal: NumberText) -> u64 {
        unreachable!()
    }
    fn add_spec(&self, a: u64, b: u64) -> u64 {
        self.add(a, b)
    }
    fn subtract_spec(&self, a: u64, b: u64) -> u64 {
        self.subtract(a, b)
    }
    fn multiply_spec(&self, a: u64, b: u64) -> u64 {
        self.multiply(a, b)
    }
    fn divide_spec(&self, a: u64, b: u64) -> u64 {
        self.divide(a, b)
    }
    fn negate_spec(&self, a: u64) -> u64 {
        self.negate(a)
    }
    fn equal_spec(&self, a: u64, b: u64) -> bool {
        self.equal(a, b)
    }
    fn greater_spec(&self, a: u64, b: u64) -> bool {
        self.greater(a, b)
    }
    fn greater_equal_spec(&self, a: u64, b: u64) -> bool {
        self.greater_equal(a, b)
    }
    fn less_spec(&self, a: u64, b: u64) -> bool {
        self.less(a, b)
    }
    fn less_equal_spec(&self, a: u64, b: u64) -> bool {
        self.less_equal(a, b)
    }
    fn format_spec(&self, a: u64) -> String {
        self.format(a)
    }
    fn parse(&self, literal: &str) -> u64 {
        literal.parse::<f64>().unwrap().to_bits()
    }
    fn add(&self, a: u64, b: u64) -> u64 {
        (f64::from_bits(a) + f64::from_bits(b)).to_bits()
    }
    fn subtract(&self, a: u64, b: u64) -> u64 {
        (f64::from_bits(a) - f64::from_bits(b)).to_bits()
    }
    fn multiply(&self, a: u64, b: u64) -> u64 {
        (f64::from_bits(a) * f64::from_bits(b)).to_bits()
    }
    fn divide(&self, a: u64, b: u64) -> u64 {
        (f64::from_bits(a) / f64::from_bits(b)).to_bits()
    }
    fn negate(&self, a: u64) -> u64 {
        (-f64::from_bits(a)).to_bits()
    }
    fn equal(&self, a: u64, b: u64) -> bool {
        f64::from_bits(a) == f64::from_bits(b)
    }
    fn greater(&self, a: u64, b: u64) -> bool {
        f64::from_bits(a) > f64::from_bits(b)
    }
    fn greater_equal(&self, a: u64, b: u64) -> bool {
        f64::from_bits(a) >= f64::from_bits(b)
    }
    fn less(&self, a: u64, b: u64) -> bool {
        f64::from_bits(a) < f64::from_bits(b)
    }
    fn less_equal(&self, a: u64, b: u64) -> bool {
        f64::from_bits(a) <= f64::from_bits(b)
    }
    fn format(&self, a: u64) -> String {
        let v = f64::from_bits(a);
        if v.fract() == 0.0 {
            format!("{:.0}", v)
        } else {
            v.to_string()
        }
    }
    fn clock(&self) -> u64 {
        0.0f64.to_bits()
    }
}

fn num(v: f64) -> u64 {
    v.to_bits()
}

/// The statements of a program, as the parser gives them.
fn parse(source: &str) -> Vec<Stmt> {
    let mut lox = Lox::new();
    let mut scanner = Scanner::new(source);
    let tokens = scanner.scan_tokens(&F64);
    let mut parser = Parser::new(tokens, &mut lox);
    parser.parse()
}

/// Runs a program after resolving it, whatever the resolver reported.
fn interpret(source: &str) -> Result<(), RuntimeError> {
    let statements = parse(source);
    let mut interpreter = Interpreter::new();
    {
        let mut resolver = Resolver::new(&mut interpreter);
        resolver.resolve(&statements);
        let _ = resolver.into_errors();
    }
    match interpreter.interpret(&statements, &F64) {
        ExecutionResult::RuntimeError(error) => Err(error),
        _ => Ok(()),
    }
}

trait Unwrap {
    fn unwrap(self);
}

impl Unwrap for ExecutionResult {
    fn unwrap(self) {
        match self {
            ExecutionResult::Success => {}
            ExecutionResult::RuntimeError(error) => panic!("runtime error: {}", error.message),
            _ => panic!("unexpected end of statement"),
        }
    }
}

fn token(token_type: TokenType, lexeme: &str) -> Token {
    Token::new(token_type, lexeme.to_string(), None, 1)
}

fn assert_interpret_runtime_error(result: Result<(), RuntimeError>, expected_message: &str) {
    match result {
        Err(error) => assert_eq!(error.message, expected_message),
        Ok(_) => panic!("expected RuntimeError({expected_message:?}), got Ok"),
    }
}

fn assert_number(result: Result<Value, RuntimeError>, expected: f64) {
    match result {
        Ok(Value::Literal(Literal::Number(bits))) => {
            let n = f64::from_bits(bits);
            assert!((n - expected).abs() < 1e-9, "expected {expected}, got {n}");
        }
        Ok(other) => panic!("expected Number({expected}), got {:?}", other),
        Err(e) => panic!("expected Ok(Number({expected})), got Err: {}", e.message),
    }
}

fn assert_string(result: Result<Value, RuntimeError>, expected: &str) {
    match result {
        Ok(Value::Literal(Literal::String(s))) => assert_eq!(s, expected),
        Ok(other) => panic!("expected String({expected:?}), got {:?}", other),
        Err(e) => panic!("expected Ok(String({expected:?})), got Err: {}", e.message),
    }
}

fn assert_runtime_error(result: Result<Value, RuntimeError>, expected_message: &str) {
    match result {
        Err(e) => assert_eq!(e.message, expected_message),
        Ok(value) => panic!(
            "expected RuntimeError({expected_message:?}), got Ok({:?})",
            value
        ),
    }
}

#[test]
fn addition_of_numbers() {
    let expression = Expr::Binary {
        left: Box::new(Expr::Literal {
            value: Literal::Number(num(1.0)),
        }),
        operator: token(TokenType::Plus, "+"),
        right: Box::new(Expr::Literal {
            value: Literal::Number(num(2.0)),
        }),
    };

    let mut interpreter = Interpreter::new();
    let result = interpreter.evaluate_expression(&expression, &F64);

    assert_number(result, 3.0);
}

#[test]
fn string_concatenation() {
    let expression = Expr::Binary {
        left: Box::new(Expr::Literal {
            value: Literal::String("hello ".to_string()),
        }),
        operator: token(TokenType::Plus, "+"),
        right: Box::new(Expr::Literal {
            value: Literal::String("world".to_string()),
        }),
    };

    let mut interpreter = Interpreter::new();
    let result = interpreter.evaluate_expression(&expression, &F64);

    assert_string(result, "hello world");
}

#[test]
fn string_plus_number_is_allowed() {
    let expression = Expr::Binary {
        left: Box::new(Expr::Literal {
            value: Literal::String("value: ".to_string()),
        }),
        operator: token(TokenType::Plus, "+"),
        right: Box::new(Expr::Literal {
            value: Literal::Number(num(42.0)),
        }),
    };

    let mut interpreter = Interpreter::new();
    let result = interpreter.evaluate_expression(&expression, &F64);

    assert_string(result, "value: 42");
}

#[test]
fn number_plus_string_is_allowed() {
    let expression = Expr::Binary {
        left: Box::new(Expr::Literal {
            value: Literal::Number(num(42.0)),
        }),
        operator: token(TokenType::Plus, "+"),
        right: Box::new(Expr::Literal {
            value: Literal::String(" apples".to_string()),
        }),
    };

    let mut interpreter = Interpreter::new();
    let result = interpreter.evaluate_expression(&expression, &F64);

    assert_string(result, "42 apples");
}

#[test]
fn unary_minus_times_grouping() {
    // -123 * (45.67)
    let expression = Expr::Binary {
        left: Box::new(Expr::Unary {
            operator: token(TokenType::Minus, "-"),
            right: Box::new(Expr::Literal {
                value: Literal::Number(num(123.0)),
            }),
        }),
        operator: token(TokenType::Star, "*"),
        right: Box::new(Expr::Grouping {
            expression: Box::new(Expr::Literal {
                value: Literal::Number(num(45.67)),
            }),
        }),
    };

    let mut interpreter = Interpreter::new();
    let result = interpreter.evaluate_expression(&expression, &F64);

    assert_number(result, -5617.41);
}

#[test]
fn division_by_zero_reports_runtime_error() {
    let expression = Expr::Binary {
        left: Box::new(Expr::Literal {
            value: Literal::Number(num(10.0)),
        }),
        operator: token(TokenType::Slash, "/"),
        right: Box::new(Expr::Literal {
            value: Literal::Number(num(0.0)),
        }),
    };

    let mut interpreter = Interpreter::new();
    let result = interpreter.evaluate_expression(&expression, &F64);

    assert_runtime_error(result, "Division by zero.");
}

#[test]
fn unary_minus_on_non_number_reports_runtime_error() {
    let expression = Expr::Unary {
        operator: token(TokenType::Minus, "-"),
        right: Box::new(Expr::Literal {
            value: Literal::String("not a number".to_string()),
        }),
    };

    let mut interpreter = Interpreter::new();
    let result = interpreter.evaluate_expression(&expression, &F64);

    assert_runtime_error(result, "Operand must be a number.");
}

#[test]
fn bang_negates_truthiness() {
    let expression = Expr::Unary {
        operator: token(TokenType::Bang, "!"),
        right: Box::new(Expr::Literal {
            value: Literal::Boolean(false),
        }),
    };

    let mut interpreter = Interpreter::new();
    let result = interpreter.evaluate_expression(&expression, &F64);

    match result {
        Ok(Value::Literal(Literal::Boolean(b))) => assert!(b),
        other => panic!("expected Ok(Boolean(true)), got {:?}", other),
    }
}

#[test]
fn nil_is_falsy() {
    let expression = Expr::Unary {
        operator: token(TokenType::Bang, "!"),
        right: Box::new(Expr::Literal {
            value: Literal::Nil,
        }),
    };

    let mut interpreter = Interpreter::new();
    let result = interpreter.evaluate_expression(&expression, &F64);

    match result {
        Ok(Value::Literal(Literal::Boolean(b))) => assert!(b),
        other => panic!("expected Ok(Boolean(true)), got {:?}", other),
    }
}

#[test]
fn equality_compares_values() {
    let expression = Expr::Binary {
        left: Box::new(Expr::Literal {
            value: Literal::Number(num(1.0)),
        }),
        operator: token(TokenType::EqualEqual, "=="),
        right: Box::new(Expr::Literal {
            value: Literal::Number(num(1.0)),
        }),
    };

    let mut interpreter = Interpreter::new();
    let result = interpreter.evaluate_expression(&expression, &F64);

    match result {
        Ok(Value::Literal(Literal::Boolean(b))) => assert!(b),
        other => panic!("expected Ok(Boolean(true)), got {:?}", other),
    }
}

#[test]
fn comparison_operands_must_be_numbers() {
    let expression = Expr::Binary {
        left: Box::new(Expr::Literal {
            value: Literal::String("a".to_string()),
        }),
        operator: token(TokenType::Greater, ">"),
        right: Box::new(Expr::Literal {
            value: Literal::Number(num(1.0)),
        }),
    };

    let mut interpreter = Interpreter::new();
    let result = interpreter.evaluate_expression(&expression, &F64);

    assert_runtime_error(result, "Operands must be numbers.");
}

#[test]
fn local_variable_is_accessible_inside_block() {
    let result = interpret(
        r#"
        {
            var a = "inside";
            print a;
        }
        "#,
    );

    assert!(result.is_ok());
}

#[test]
fn local_variable_is_not_accessible_outside_block() {
    let result = interpret(
        r#"
        {
            var a = "inside";
        }

        print a;
        "#,
    );

    assert_interpret_runtime_error(result, "Undefined variable 'a'.");
}

#[test]
fn local_variable_shadows_global_variable() {
    let result = interpret(
        r#"
        var a = "global";

        {
            var a = "local";
            print a;
        }

        print a;
        "#,
    );

    assert!(result.is_ok());
}

#[test]
fn nested_block_can_access_outer_variable() {
    let result = interpret(
        r#"
        var a = "global";

        {
            var b = "outer";

            {
                var c = "inner";

                print a;
                print b;
                print c;
            }
        }
        "#,
    );

    assert!(result.is_ok());
}

#[test]
fn nested_blocks_shadow_variables_correctly() {
    let result = interpret(
        r#"
        var a = "global a";
        var b = "global b";
        var c = "global c";

        {
            var a = "outer a";
            var b = "outer b";

            {
                var a = "inner a";

                print a;
                print b;
                print c;
            }

            print a;
            print b;
            print c;
        }

        print a;
        print b;
        print c;
        "#,
    );

    assert!(result.is_ok());
}

#[test]
fn assignment_updates_variable_in_enclosing_scope() {
    let result = interpret(
        r#"
        var a = "global";

        {
            a = "modified";
        }

        print a;
        "#,
    );

    assert!(result.is_ok());
}

#[test]
fn assignment_updates_shadowing_local_variable() {
    let result = interpret(
        r#"
        var a = "global";

        {
            var a = "local";
            a = "modified";
            print a;
        }

        print a;
        "#,
    );

    assert!(result.is_ok());
}

#[test]
fn assignment_to_undefined_variable_is_runtime_error() {
    let result = interpret(
        r#"
        {
            a = "value";
        }
        "#,
    );

    assert_interpret_runtime_error(result, "Undefined variable 'a'.");
}

#[test]
fn if_executes_then_branch_when_condition_is_truthy() {
    let statement = Stmt::If {
        condition: Expr::Literal {
            value: Literal::Boolean(true),
        },

        then_branch: Box::new(Stmt::Expression {
            expression: Expr::Assign {
                id: 0,
                name: token(TokenType::Identifier, "a"),
                value: Box::new(Expr::Literal {
                    value: Literal::String("then".to_string()),
                }),
            },
        }),

        else_branch: Some(Box::new(Stmt::Expression {
            expression: Expr::Assign {
                id: 0,
                name: token(TokenType::Identifier, "a"),
                value: Box::new(Expr::Literal {
                    value: Literal::String("else".to_string()),
                }),
            },
        })),
    };

    let mut interpreter = Interpreter::new();

    // Define a first.
    interpreter
        .interpret(&[Stmt::Var {
            name: token(TokenType::Identifier, "a"),
            initializer: Some(Expr::Literal {
                value: Literal::String("before".to_string()),
            }),
        }], &F64)
        .unwrap();

    // Execute if.
    interpreter.interpret(&[statement], &F64).unwrap();

    // Verify that the then branch executed.
    let result = interpreter.evaluate_expression(&Expr::Variable {
        id: 0,
        name: token(TokenType::Identifier, "a"),
    }, &F64);

    assert_string(result, "then");
}

#[test]
fn if_executes_else_branch_when_condition_is_falsey() {
    let statement = Stmt::If {
        condition: Expr::Literal {
            value: Literal::Boolean(false),
        },

        then_branch: Box::new(Stmt::Expression {
            expression: Expr::Assign {
                id: 0,
                name: token(TokenType::Identifier, "a"),
                value: Box::new(Expr::Literal {
                    value: Literal::String("then".to_string()),
                }),
            },
        }),

        else_branch: Some(Box::new(Stmt::Expression {
            expression: Expr::Assign {
                id: 0,
                name: token(TokenType::Identifier, "a"),
                value: Box::new(Expr::Literal {
                    value: Literal::String("else".to_string()),
                }),
            },
        })),
    };

    let mut interpreter = Interpreter::new();

    interpreter
        .interpret(&[Stmt::Var {
            name: token(TokenType::Identifier, "a"),
            initializer: Some(Expr::Literal {
                value: Literal::String("before".to_string()),
            }),
        }], &F64)
        .unwrap();

    interpreter.interpret(&[statement], &F64).unwrap();

    let result = interpreter.evaluate_expression(&Expr::Variable {
        id: 0,
        name: token(TokenType::Identifier, "a"),
    }, &F64);

    assert_string(result, "else");
}

#[test]
fn if_without_else_does_nothing_when_false() {
    let statement = Stmt::If {
        condition: Expr::Literal {
            value: Literal::Boolean(false),
        },

        then_branch: Box::new(Stmt::Expression {
            expression: Expr::Assign {
                id: 0,
                name: token(TokenType::Identifier, "a"),
                value: Box::new(Expr::Literal {
                    value: Literal::String("changed".to_string()),
                }),
            },
        }),

        else_branch: None,
    };

    let mut interpreter = Interpreter::new();

    interpreter
        .interpret(&[Stmt::Var {
            name: token(TokenType::Identifier, "a"),
            initializer: Some(Expr::Literal {
                value: Literal::String("before".to_string()),
            }),
        }], &F64)
        .unwrap();

    interpreter.interpret(&[statement], &F64).unwrap();

    let result = interpreter.evaluate_expression(&Expr::Variable {
        id: 0,
        name: token(TokenType::Identifier, "a"),
    }, &F64);

    assert_string(result, "before");
}

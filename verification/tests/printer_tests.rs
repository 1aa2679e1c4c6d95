use lib::ast_printer::AstPrinter;
use lib::expr::Expr;
use lib::numbers::{NumberOps, NumberText};
use lib::token::{Literal, Token, TokenType};

/// IEEE doubles, as the host supplies them to the interpreter.
struct F64;

impl NumberOps for F64 {
    // Read by the verifier only: a literal's characters are not kept at run time.
    fn parse_spec(&self, _literal: NumberText) -> u64 {
        unreachable!()
    }
    fn add_spec(&self, a: u64, b: u64) -> u64 {
        self.add(a, b)
    }
    fn subtract_spec(&self, a: u64, b: u64) -> u64 {
        self.subtract(a, b)
    }
    fn multiply_spec(&self, a: u64, b: u64) -> u64 {
        self.multiply(a, b)
    }
    fn divide_spec(&self, a: u64, b: u64) -> u64 {
        self.divide(a, b)
    }
    fn negate_spec(&self, a: u64) -> u64 {
        self.negate(a)
    }
    fn equal_spec(&self, a: u64, b: u64) -> bool {
        self.equal(a, b)
    }
    fn greater_spec(&self, a: u64, b: u64) -> bool {
        self.greater(a, b)
    }
    fn greater_equal_spec(&self, a: u64, b: u64) -> bool {
        self.greater_equal(a, b)
    }
    fn less_spec(&self, a: u64, b: u64) -> bool {
        self.less(a, b)
    }
    fn less_equal_spec(&self, a: u64, b: u64) -> bool {
        self.less_equal(a, b)
    }
    fn format_spec(&self, a: u64) -> String {
        self.format(a)
    }
    fn parse(&self, literal: &str) -> u64 {
        literal.parse::<f64>().unwrap().to_bits()
    }
    fn add(&self, a: u64, b: u64) -> u64 {
        (f64::from_bits(a) + f64::from_bits(b)).to_bits()
    }
    fn subtract(&self, a: u64, b: u64) -> u64 {
        (f64::from_bits(a) - f64::from_bits(b)).to_bits()
    }
    fn multiply(&self, a: u64, b: u64) -> u64 {
        (f64::from_bits(a) * f64::from_bits(b)).to_bits()
    }
    fn divide(&self, a: u64, b: u64) -> u64 {
        (f64::from_bits(a) / f64::from_bits(b)).to_bits()
    }
    fn negate(&self, a: u64) -> u64 {
        (-f64::from_bits(a)).to_bits()
    }
    fn equal(&self, a: u64, b: u64) -> bool {
        f64::from_bits(a) == f64::from_bits(b)
    }
    fn greater(&self, a: u64, b: u64) -> bool {
        f64::from_bits(a) > f64::from_bits(b)
    }
    fn greater_equal(&self, a: u64, b: u64) -> bool {
        f64::from_bits(a) >= f64::from_bits(b)
    }
    fn less(&self, a: u64, b: u64) -> bool {
        f64::from_bits(a) < f64::from_bits(b)
    }
    fn less_equal(&self, a: u64, b: u64) -> bool {
        f64::from_bits(a) <= f64::from_bits(b)
    }
    fn format(&self, a: u64) -> String {
        let v = f64::from_bits(a);
        if v.fract() == 0.0 {
            format!("{:.0}", v)
        } else {
            v.to_string()
        }
    }
    fn clock(&self) -> u64 {
        0.0f64.to_bits()
    }
}

fn num(v: f64) -> u64 {
    v.to_bits()
}

fn token(token_type: TokenType, lexeme: &str) -> Token {
    Token::new(token_type, lexeme.to_string(), None, 1)
}

fn number(v: f64) -> Expr {
    Expr::Literal { value: Literal::Number(num(v)) }
}

fn variable(name: &str) -> Expr {
    Expr::Variable { id: 0, name: token(TokenType::Identifier, name) }
}

#[test]
fn prints_literal() {
    let expr = number(123.0);

    assert_eq!(AstPrinter::new().print(&expr, &F64), "123");
}

#[test]
fn prints_unary() {
    let expr = Expr::Unary {
        operator: token(TokenType::Minus, "-"),
        right: Box::new(number(123.0)),
    };

    assert_eq!(AstPrinter::new().print(&expr, &F64), "(- 123)");
}

#[test]
fn prints_binary() {
    let expr = Expr::Binary {
        left: Box::new(number(1.0)),
        operator: token(TokenType::Plus, "+"),
        right: Box::new(number(2.0)),
    };

    assert_eq!(AstPrinter::new().print(&expr, &F64), "(+ 1 2)");
}

#[test]
fn prints_grouping() {
    let expr = Expr::Grouping { expression: Box::new(number(123.0)) };

    assert_eq!(AstPrinter::new().print(&expr, &F64), "(group 123)");
}

#[test]
fn prints_complex_expression() {
    let expr = Expr::Binary {
        left: Box::new(Expr::Unary {
            operator: token(TokenType::Minus, "-"),
            right: Box::new(number(123.0)),
        }),
        operator: token(TokenType::Star, "*"),
        right: Box::new(Expr::Grouping { expression: Box::new(number(45.67)) }),
    };

    assert_eq!(AstPrinter::new().print(&expr, &F64), "(* (- 123) (group 45.67))");
}

#[test]
fn prints_assignment() {
    let expr = Expr::Assign {
        id: 0,
        name: token(TokenType::Identifier, "a"),
        value: Box::new(number(42.0)),
    };

    assert_eq!(AstPrinter::new().print(&expr, &F64), "(= a 42)");
}

#[test]
fn prints_logical_and() {
    let expr = Expr::Logical {
        left: Box::new(variable("a")),
        operator: token(TokenType::And, "and"),
        right: Box::new(variable("b")),
    };

    assert_eq!(AstPrinter::new().print(&expr, &F64), "(and a b)");
}

#[test]
fn prints_logical_or() {
    let expr = Expr::Logical {
        left: Box::new(variable("a")),
        operator: token(TokenType::Or, "or"),
        right: Box::new(variable("b")),
    };

    assert_eq!(AstPrinter::new().print(&expr, &F64), "(or a b)");
}

#[test]
fn prints_nested_logical_expression() {
    let expr = Expr::Logical {
        left: Box::new(variable("a")),
        operator: token(TokenType::Or, "or"),
        right: Box::new(Expr::Logical {
            left: Box::new(variable("b")),
            operator: token(TokenType::And, "and"),
            right: Box::new(variable("c")),
        }),
    };

    assert_eq!(AstPrinter::new().print(&expr, &F64), "(or a (and b c))");
}

#[test]
fn prints_literals_of_every_kind() {
    let printer = AstPrinter::new();
    let string = Expr::Literal { value: Literal::String("hi".to_string()) };
    let boolean = Expr::Literal { value: Literal::Boolean(false) };
    let nil = Expr::Literal { value: Literal::Nil };
    assert_eq!(printer.print(&string, &F64), "hi");
    assert_eq!(printer.print(&boolean, &F64), "false");
    assert_eq!(printer.print(&nil, &F64), "nil");
}

#[test]
fn prints_calls_and_properties() {
    let call = Expr::Call {
        callee: Box::new(variable("f")),
        paren: token(TokenType::RightParen, ")"),
        arguments: vec![number(1.0), variable("x")],
    };
    let get = Expr::Get {
        object: Box::new(variable("obj")),
        name: token(TokenType::Identifier, "field"),
    };
    let printer = AstPrinter::new();
    let call_text = printer.print(&call, &F64);
    let get_text = printer.print(&get, &F64);
    assert_eq!(call_text, "(call f 1 x)");
    assert_eq!(get_text, "(. obj field)");
}
